//! What a row says of where it stands among the others.

use vstd::prelude::*;

use crate::node::{at, is_tree, kids, lemma_parent, listed, live, one_below, Slots};
use crate::redraw::{drawn_alike, lemma_siblings_from, same_rows};
use crate::shown::{
    deeper, lemma_deeper_step, lemma_rows_distinct, level, row_of, rows_of, shown, shown_below, shown_from, Row, Shown,
};
use crate::visibility::{lemma_rows_rebuild_paths, parent_row};

verus! {

/// Whether a place is marked as the last exactly where its node is the last one
/// its parent lists.
spec fn marked(s: Slots, sh: Shown) -> bool {
    let p = at(s, sh.id as int).parent->0 as int;
    &&& at(s, sh.id as int).parent is Some
    &&& live(s, p)
    &&& exists|m: int|
        #![trigger kids(s, p)[m]]
        0 <= m < kids(s, p).len() && kids(s, p)[m] == sh.id && sh.last == (m + 1 == kids(s, p).len())
}

proof fn lemma_marked_from(s: Slots, root: int, i: int, depth: nat, last: bool)
    requires
        is_tree(s, root),
        live(s, i),
    ensures
        forall|k: int|
            #![trigger shown_from(s, i, depth, last)[k]]
            1 <= k < shown_from(s, i, depth, last).len() ==> marked(s, shown_from(s, i, depth, last)[k]),
    decreases deeper(s, level(s, i)), 1nat, 0nat,
{
    let all = shown_from(s, i, depth, last);
    if at(s, i).expanded {
        let below = shown_below(s, i, kids(s, i).len(), depth);
        lemma_marked_below(s, root, i, kids(s, i).len(), depth);
        assert forall|k: int| #![trigger all[k]] 1 <= k < all.len() implies marked(s, all[k]) by {
            assert(all[k] == below[k - 1]);
        }
    }
}

proof fn lemma_marked_below(s: Slots, root: int, i: int, n: nat, depth: nat)
    requires
        is_tree(s, root),
        live(s, i),
        n <= kids(s, i).len(),
    ensures
        forall|k: int|
            #![trigger shown_below(s, i, n, depth)[k]]
            0 <= k < shown_below(s, i, n, depth).len() ==> marked(s, shown_below(s, i, n, depth)[k]),
    decreases deeper(s, level(s, i)), 0nat, n,
{
    if n > 0 {
        let all = shown_below(s, i, n, depth);
        let front = shown_below(s, i, (n - 1) as nat, depth);
        let c = kids(s, i)[n - 1] as int;
        let is_last = n == kids(s, i).len();
        let back = shown_from(s, c, depth + 1, is_last);
        assert(live(s, c) && at(s, c).parent == Some(i as usize) && one_below(at(s, c).path@, at(s, i).path@));
        lemma_deeper_step(s, level(s, i), c);
        lemma_marked_below(s, root, i, (n - 1) as nat, depth);
        lemma_marked_from(s, root, c, depth + 1, is_last);
        assert(all == front + back);
        assert forall|k: int| #![trigger all[k]] 0 <= k < all.len() implies marked(s, all[k]) by {
            if k < front.len() {
                assert(all[k] == front[k]);
                assert(marked(s, front[k]));
            } else {
                assert(all[k] == back[k - front.len()]);
                if k > front.len() {
                    assert(marked(s, back[k - front.len()]));
                } else {
                    assert(back[0] == (Shown { id: c as usize, depth: depth + 1, last: is_last }));
                    assert(at(s, all[k].id as int).parent == Some(i as usize));
                    assert(i as usize as int == i);
                    let m = n - 1;
                    assert(0 <= m < kids(s, i).len() && kids(s, i)[m] == all[k].id && all[k].last == (m + 1 == kids(s, i).len()));
                    assert(marked(s, all[k]));
                }
            }
        }
    }
}

/// Whether two rows are of things in one directory: their paths are the same but
/// for the last name.
pub open spec fn in_one_directory(a: Row, b: Row) -> bool {
    &&& a.path@.names.len() > 0
    &&& a.path@.names.len() == b.path@.names.len()
    &&& a.path@.absolute == b.path@.absolute
    &&& forall|k: int| #![trigger a.path@.names[k]] 0 <= k < a.path@.names.len() - 1 ==> a.path@.names[k] == b.path@.names[k]
}

/// Whether a later row is of something in the same directory as row `i`.
pub open spec fn more_follow(rows: Seq<Row>, i: int) -> bool {
    exists|j: int| i < j < rows.len() && in_one_directory(rows[i], #[trigger] rows[j])
}

/// A row below the root is marked as the last exactly where no later row is of
/// something in the same directory.
pub proof fn lemma_the_last_has_nothing_after_it(s: Slots, root: int, rows: Seq<Row>, i: int)
    requires
        is_tree(s, root),
        rows_of(s, shown(s, root), rows),
        1 <= i < rows.len(),
    ensures
        rows[i].last <==> !more_follow(rows, i),
{
    let places = shown(s, root);
    lemma_rows_distinct(s, root);
    lemma_marked_from(s, root, root, 0, true);
    assert(shown_from(s, root, 0, true)[i] == places[i]);
    assert(marked(s, places[i]));
    assert(row_of(s, places[i], rows[i]));
    let c = places[i].id as int;
    let p = at(s, c).parent->0 as int;
    let m = choose|m: int|
        #![trigger kids(s, p)[m]]
        0 <= m < kids(s, p).len() && kids(s, p)[m] == places[i].id && places[i].last == (m + 1 == kids(s, p).len());
    let x0 = lemma_rows_rebuild_paths(s, root, i);
    assert(parent_row(s, places, i, x0));
    assert(places[x0].id == p as usize);
    assert(shown_from(s, root, 0, true)[x0].id == p as usize);
    assert(one_below(at(s, c).path@, at(s, p).path@));
    if !rows[i].last {
        let d = kids(s, p)[m + 1];
        assert(live(s, d as int) && one_below(at(s, d as int).path@, at(s, p).path@));
        lemma_siblings_from(s, root, root, 0, true, p as usize, m, m + 1);
        let (x, y) = choose|x: int, y: int|
            0 <= x < y < places.len() && #[trigger] places[x].id == kids(s, p)[m] && #[trigger] places[y].id == d;
        assert(x == i) by {
            if x < i {
                assert(places[x].id != places[i].id);
            } else if i < x {
                assert(places[i].id != places[x].id);
            }
        }
        assert(row_of(s, places[y], rows[y]));
        let a = at(s, c).path@;
        let b = at(s, d as int).path@;
        assert forall|k: int| #![trigger a.names[k]] 0 <= k < a.names.len() - 1 implies a.names[k] == b.names[k] by {
            assert(a.names.drop_last()[k] == a.names[k]);
            assert(b.names.drop_last()[k] == b.names[k]);
        }
        assert(in_one_directory(rows[i], rows[y]));
    }
    if more_follow(rows, i) {
        let j = choose|j: int| i < j < rows.len() && in_one_directory(rows[i], #[trigger] rows[j]);
        assert(row_of(s, places[j], rows[j]));
        let e = places[j].id as int;
        assert(live(s, e));
        let a = at(s, c).path@;
        let b = at(s, e).path@;
        let y0 = lemma_rows_rebuild_paths(s, root, j);
        let q = places[y0].id as int;
        assert(parent_row(s, places, j, y0));
        assert(e != root);
        lemma_parent(s, root, e);
        assert(at(s, e).parent == Some(places[y0].id));
        assert(b.names.drop_last() =~= a.names.drop_last()) by {
            assert forall|k: int| 0 <= k < a.names.len() - 1 implies a.names.drop_last()[k] == b.names.drop_last()[k] by {
                assert(a.names[k] == b.names[k]);
            }
        }
        assert(one_below(b, at(s, q).path@));
        assert(at(s, q).path@.names == at(s, p).path@.names && at(s, q).path@.absolute == at(s, p).path@.absolute);
        assert(live(s, q));
        assert(at(s, q).path@ == at(s, p).path@);
        assert(q == p);
        assert(listed(s, e));
        let w = choose|w: int| 0 <= w < kids(s, p).len() && kids(s, p)[w] == e as usize;
        if rows[i].last {
            assert(w != m) by {
                assert(places[i].id != places[j].id);
            }
            assert(w < m);
            lemma_siblings_from(s, root, root, 0, true, p as usize, w, m);
            let (x, y) = choose|x: int, y: int|
                0 <= x < y < places.len() && #[trigger] places[x].id == kids(s, p)[w] && #[trigger] places[y].id == kids(s, p)[m];
            assert(x == j) by {
                if x < j {
                    assert(places[x].id != places[j].id);
                } else if j < x {
                    assert(places[j].id != places[x].id);
                }
            }
            assert(y == i) by {
                if y < i {
                    assert(places[y].id != places[i].id);
                } else if i < y {
                    assert(places[i].id != places[y].id);
                }
            }
        }
    }
}

/// A row says of its node what the node is.
pub proof fn lemma_rows_say_what_nodes_are(s: Slots, root: int, rows: Seq<Row>, k: int)
    requires
        is_tree(s, root),
        rows_of(s, shown(s, root), rows),
        0 <= k < rows.len(),
    ensures
        ({
            let row = rows[k];
            let node = at(s, row.id as int);
            &&& live(s, row.id as int)
            &&& row.depth == node.path@.names.len() - at(s, root).path@.names.len()
            &&& row.name@ == node.name@
            &&& row.path@ == node.path@
            &&& row.kind == node.kind
            &&& row.symlink == node.symlink
            &&& row.expanded == node.expanded
            &&& row.ignored == node.ignored
            &&& row.size == node.size
            &&& row.omitted == node.omitted
        }),
{
    lemma_rows_distinct(s, root);
    assert(row_of(s, shown(s, root)[k], rows[k]));
}

/// Two states of a tree count as drawn alike exactly where their rows say the
/// same of everything but how large files are.
pub proof fn lemma_drawn_alike_means_the_same_rows(s: Slots, t: Slots, root: int, before: Seq<Row>, after: Seq<Row>)
    requires
        is_tree(s, root),
        is_tree(t, root),
        rows_of(s, shown(s, root), before),
        rows_of(t, shown(t, root), after),
    ensures
        same_rows(s, t, root) <==> {
            &&& before.len() == after.len()
            &&& forall|k: int|
                #![trigger before[k]]
                0 <= k < before.len() ==> {
                    &&& before[k].id == after[k].id
                    &&& before[k].depth == after[k].depth
                    &&& before[k].name@ == after[k].name@
                    &&& before[k].path@ == after[k].path@
                    &&& before[k].kind == after[k].kind
                    &&& before[k].symlink == after[k].symlink
                    &&& before[k].expanded == after[k].expanded
                    &&& before[k].ignored == after[k].ignored
                    &&& before[k].last == after[k].last
                    &&& before[k].omitted == after[k].omitted
                }
        },
{
    let x = shown(s, root);
    let y = shown(t, root);
    if same_rows(s, t, root) {
        assert forall|k: int| #![trigger before[k]] 0 <= k < before.len() implies {
            &&& before[k].id == after[k].id
            &&& before[k].depth == after[k].depth
            &&& before[k].name@ == after[k].name@
            &&& before[k].path@ == after[k].path@
            &&& before[k].kind == after[k].kind
            &&& before[k].symlink == after[k].symlink
            &&& before[k].expanded == after[k].expanded
            &&& before[k].ignored == after[k].ignored
            &&& before[k].last == after[k].last
            &&& before[k].omitted == after[k].omitted
        } by {
            assert(row_of(s, x[k], before[k]));
            assert(row_of(t, y[k], after[k]));
            assert(x[k] == y[k]);
        }
    }
    if before.len() == after.len() && forall|k: int|
        #![trigger before[k]]
        0 <= k < before.len() ==> {
            &&& before[k].id == after[k].id
            &&& before[k].depth == after[k].depth
            &&& before[k].name@ == after[k].name@
            &&& before[k].path@ == after[k].path@
            &&& before[k].kind == after[k].kind
            &&& before[k].symlink == after[k].symlink
            &&& before[k].expanded == after[k].expanded
            &&& before[k].ignored == after[k].ignored
            &&& before[k].last == after[k].last
            &&& before[k].omitted == after[k].omitted
        } {
        assert forall|k: int| 0 <= k < x.len() implies x[k] == y[k] by {
            assert(row_of(s, x[k], before[k]));
            assert(row_of(t, y[k], after[k]));
        }
        assert(x =~= y);
        assert forall|k: int| #![trigger x[k]] 0 <= k < x.len() implies drawn_alike(at(s, x[k].id as int), at(t, x[k].id as int)) by {
            assert(row_of(s, x[k], before[k]));
            assert(row_of(t, y[k], after[k]));
        }
    }
}

} // verus!
