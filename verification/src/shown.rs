//! The tree flattened: the rows a view draws.

use vstd::prelude::*;

use crate::arena::Arena;
use crate::node::{
    at, is_tree, kids, lemma_below_under, lemma_under_both, lemma_under_trans, links_down, live,
    one_below, Kind, NodeId, Slots,
};
use crate::path::TreePath;

verus! {

/// One line of the flattened, currently-visible tree. This is the single source
/// of truth for both terminal and browser rendering, and, because the index is
/// the screen row, for mouse hit-testing.
///
/// A row goes over the wire as `[depth, name, packed]` with an optional fourth
/// element for `omitted`. A tree is thousands of near-identical records; field
/// names and absolute paths are almost all of the bytes and none of the
/// information. `path` is not sent at all: depth-first order means the client
/// already knows every ancestor and can rebuild it.
#[derive(Debug)]
pub struct Row {
    pub id: NodeId,
    pub depth: usize,
    pub name: String,
    pub path: TreePath,
    pub kind: Kind,
    pub symlink: bool,
    pub expanded: bool,
    /// Dimmed by every view: git would ignore it, or it is `.git` itself.
    pub ignored: bool,
    pub size: u64,
    /// True when this is the last child of its parent, for box-drawing.
    pub last: bool,
    /// How many of this directory's entries were left out, if any.
    pub omitted: usize,
}

/// A node's place among the rows.
pub struct Shown {
    pub id: NodeId,
    pub depth: nat,
    pub last: bool,
}

/// How many names a node's path has.
pub open spec fn level(s: Slots, i: int) -> nat {
    at(s, i).path@.names.len()
}

/// How many nodes have more than `n` names in their path.
pub open spec fn deeper(s: Slots, n: nat) -> nat
    decreases s.len(),
{
    if s.len() == 0 {
        0
    } else {
        deeper(s.drop_last(), n) + (if s.last() is Some && s.last()->0.path@.names.len() > n {
            1nat
        } else {
            0nat
        })
    }
}

pub proof fn lemma_deeper_bound(s: Slots, n: nat)
    ensures
        deeper(s, n) <= s.len(),
    decreases s.len(),
{
    if s.len() > 0 {
        lemma_deeper_bound(s.drop_last(), n);
    }
}

/// One level down there is at least one node fewer still to come.
pub proof fn lemma_deeper_step(s: Slots, n: nat, j: int)
    requires
        live(s, j),
        level(s, j) == n + 1,
    ensures
        deeper(s, n + 1) < deeper(s, n),
    decreases s.len(),
{
    let t = s.drop_last();
    if j < s.len() - 1 {
        assert(t[j] == s[j]);
        lemma_deeper_step(t, n, j);
    } else {
        lemma_deeper_mono(t, n);
    }
}

proof fn lemma_deeper_mono(s: Slots, n: nat)
    ensures
        deeper(s, n + 1) <= deeper(s, n),
    decreases s.len(),
{
    if s.len() > 0 {
        lemma_deeper_mono(s.drop_last(), n);
    }
}

/// What is visible at and below `i`, depth first: the node, and where it is
/// open whatever is visible at and below each of its children.
pub open spec fn shown_from(s: Slots, i: int, depth: nat, last: bool) -> Seq<Shown>
    decreases deeper(s, level(s, i)), 1nat, 0nat,
    when links_down(s) && live(s, i)
{
    let own = Shown { id: i as usize, depth, last };
    if at(s, i).expanded {
        seq![own] + shown_below(s, i, kids(s, i).len(), depth)
    } else {
        seq![own]
    }
}

/// What is visible at and below the first `n` children of `i`.
pub open spec fn shown_below(s: Slots, i: int, n: nat, depth: nat) -> Seq<Shown>
    decreases deeper(s, level(s, i)), 0nat, n,
    when links_down(s) && live(s, i) && n <= kids(s, i).len()
{
    if n == 0 {
        Seq::empty()
    } else {
        proof {
            let c = kids(s, i)[n - 1] as int;
            assert(one_below(at(s, c).path@, at(s, i).path@));
            lemma_deeper_step(s, level(s, i), c);
        }
        shown_below(s, i, (n - 1) as nat, depth) + shown_from(
            s,
            kids(s, i)[n - 1] as int,
            depth + 1,
            n == kids(s, i).len(),
        )
    }
}

/// Every visible node, in the order of the rows.
pub open spec fn shown(s: Slots, root: int) -> Seq<Shown> {
    shown_from(s, root, 0, true)
}

/// A row says of its node what there is to say.
pub open spec fn row_of(s: Slots, sh: Shown, r: Row) -> bool {
    let n = at(s, sh.id as int);
    &&& r.id == sh.id
    &&& r.depth == sh.depth
    &&& r.last == sh.last
    &&& r.name@ == n.name@
    &&& r.path@ == n.path@
    &&& r.kind == n.kind
    &&& r.symlink == n.symlink
    &&& r.expanded == n.expanded
    &&& r.ignored == n.ignored
    &&& r.size == n.size
    &&& r.omitted == n.omitted
}

/// Rows for exactly these places, in order.
pub open spec fn rows_of(s: Slots, places: Seq<Shown>, rows: Seq<Row>) -> bool {
    &&& rows.len() == places.len()
    &&& forall|k: int| #![trigger rows[k]] 0 <= k < rows.len() ==> row_of(s, places[k], rows[k])
}

// -- where rows are -------------------------------------------------------

/// What a place found at or below `i` looks like.
pub open spec fn placed(s: Slots, i: int, depth: nat, sh: Shown) -> bool {
    &&& live(s, sh.id as int)
    &&& at(s, sh.id as int).path@.under(at(s, i).path@)
    &&& sh.depth == depth + level(s, sh.id as int) - level(s, i)
}

pub proof fn lemma_shown_from(s: Slots, root: int, i: int, depth: nat, last: bool)
    requires
        is_tree(s, root),
        live(s, i),
    ensures
        forall|k: int|
            #![trigger shown_from(s, i, depth, last)[k]]
            0 <= k < shown_from(s, i, depth, last).len() ==> placed(s, i, depth, shown_from(s, i, depth, last)[k]),
        forall|a: int, b: int|
            #![trigger shown_from(s, i, depth, last)[a], shown_from(s, i, depth, last)[b]]
            0 <= a < b < shown_from(s, i, depth, last).len() ==> shown_from(s, i, depth, last)[a].id != shown_from(
                s,
                i,
                depth,
                last,
            )[b].id,
    decreases deeper(s, level(s, i)), 1nat, 0nat,
{
    let all = shown_from(s, i, depth, last);
    let p = at(s, i).path@;
    assert(p.under(p));
    if at(s, i).expanded {
        let below = shown_below(s, i, kids(s, i).len(), depth);
        lemma_shown_below(s, root, i, kids(s, i).len(), depth);
        assert forall|k: int| #![trigger all[k]] 0 <= k < all.len() implies placed(s, i, depth, all[k]) by {
            if k > 0 {
                assert(all[k] == below[k - 1]);
                assert(placed_below(s, i, depth, below[k - 1]));
            }
        }
        assert forall|a: int, b: int| #![trigger all[a], all[b]] 0 <= a < b < all.len() implies all[a].id != all[b].id by {
            assert(all[b] == below[b - 1]);
            assert(placed_below(s, i, depth, below[b - 1]));
            if a > 0 {
                assert(all[a] == below[a - 1]);
            }
        }
    }
}

/// What a place found below `i` looks like.
pub open spec fn placed_below(s: Slots, i: int, depth: nat, sh: Shown) -> bool {
    placed(s, i, depth, sh) && level(s, sh.id as int) > level(s, i)
}

pub proof fn lemma_shown_below(s: Slots, root: int, i: int, n: nat, depth: nat)
    requires
        is_tree(s, root),
        live(s, i),
        n <= kids(s, i).len(),
    ensures
        forall|k: int|
            #![trigger shown_below(s, i, n, depth)[k]]
            0 <= k < shown_below(s, i, n, depth).len() ==> {
                let sh = shown_below(s, i, n, depth)[k];
                placed_below(s, i, depth, sh) && (exists|m: int|
                    #![trigger kids(s, i)[m]]
                    0 <= m < n && at(s, sh.id as int).path@.under(at(s, kids(s, i)[m] as int).path@))
            },
        forall|a: int, b: int|
            #![trigger shown_below(s, i, n, depth)[a], shown_below(s, i, n, depth)[b]]
            0 <= a < b < shown_below(s, i, n, depth).len() ==> shown_below(s, i, n, depth)[a].id != shown_below(
                s,
                i,
                n,
                depth,
            )[b].id,
    decreases deeper(s, level(s, i)), 0nat, n,
{
    if n > 0 {
        let all = shown_below(s, i, n, depth);
        let front = shown_below(s, i, (n - 1) as nat, depth);
        let c = kids(s, i)[n - 1] as int;
        let is_last = n == kids(s, i).len();
        let back = shown_from(s, c, depth + 1, is_last);
        let p = at(s, i).path@;
        let pc = at(s, c).path@;
        assert(live(s, c) && one_below(pc, p));
        lemma_deeper_step(s, level(s, i), c);
        lemma_shown_below(s, root, i, (n - 1) as nat, depth);
        lemma_shown_from(s, root, c, depth + 1, is_last);
        lemma_below_under(pc, p);
        assert(all == front + back);
        assert forall|k: int| #![trigger all[k]] 0 <= k < all.len() implies {
            let sh = all[k];
            placed_below(s, i, depth, sh) && (exists|m: int|
                #![trigger kids(s, i)[m]]
                0 <= m < n && at(s, sh.id as int).path@.under(at(s, kids(s, i)[m] as int).path@))
        } by {
            let sh = all[k];
            if k < front.len() {
                assert(front[k] == sh);
                let m = choose|m: int|
                    #![trigger kids(s, i)[m]]
                    0 <= m < n - 1 && at(s, sh.id as int).path@.under(at(s, kids(s, i)[m] as int).path@);
                assert(0 <= m < n);
            } else {
                assert(back[k - front.len()] == sh);
                assert(placed(s, c, depth + 1, sh));
                lemma_under_trans(at(s, sh.id as int).path@, pc, p);
                assert(at(s, sh.id as int).path@.under(at(s, kids(s, i)[n - 1] as int).path@));
            }
        }
        assert forall|a: int, b: int| #![trigger all[a], all[b]] 0 <= a < b < all.len() implies all[a].id != all[b].id by {
            if b < front.len() {
                assert(front[a] == all[a] && front[b] == all[b]);
            } else if a >= front.len() {
                assert(back[a - front.len()] == all[a] && back[b - front.len()] == all[b]);
            } else {
                let x = front[a];
                let y = back[b - front.len()];
                assert(all[a] == x && all[b] == y);
                assert(placed(s, c, depth + 1, y));
                if x.id == y.id {
                    let m = choose|m: int|
                        #![trigger kids(s, i)[m]]
                        0 <= m < n - 1 && at(s, x.id as int).path@.under(at(s, kids(s, i)[m] as int).path@);
                    assert(one_below(at(s, kids(s, i)[m] as int).path@, p));
                    lemma_under_both(at(s, x.id as int).path@, at(s, kids(s, i)[m] as int).path@, pc);
                    assert(kids(s, i)[m] as int == c);
                    assert(kids(s, i).no_duplicates());
                }
            }
        }
    }
}

/// No node has two rows, every row is a node, and a row's depth is how far its
/// path goes on past the root's.
pub proof fn lemma_rows_distinct(s: Slots, root: int)
    requires
        is_tree(s, root),
    ensures
        forall|a: int, b: int|
            #![trigger shown(s, root)[a], shown(s, root)[b]]
            0 <= a < b < shown(s, root).len() ==> shown(s, root)[a].id != shown(s, root)[b].id,
        forall|k: int|
            #![trigger shown(s, root)[k]]
            0 <= k < shown(s, root).len() ==> {
                &&& live(s, shown(s, root)[k].id as int)
                &&& shown(s, root)[k].depth == level(s, shown(s, root)[k].id as int) - level(s, root)
            },
        0 < shown(s, root).len() <= s.len(),
{
    lemma_shown_from(s, root, root, 0, true);
    let all = shown(s, root);
    assert forall|k: int| #![trigger all[k]] 0 <= k < all.len() implies live(s, all[k].id as int) && all[k].depth == level(
        s,
        all[k].id as int,
    ) - level(s, root) by {
        assert(placed(s, root, 0, all[k]));
    }
    let ids = Seq::new(all.len(), |k: int| all[k].id as int);
    lemma_few(ids, s.len());
}

/// Distinct numbers below `n` are at most `n` many.
pub proof fn lemma_few(ids: Seq<int>, n: nat)
    requires
        forall|k: int| #![trigger ids[k]] 0 <= k < ids.len() ==> 0 <= ids[k] < n,
        forall|a: int, b: int| #![trigger ids[a], ids[b]] 0 <= a < b < ids.len() ==> ids[a] != ids[b],
    ensures
        ids.len() <= n,
    decreases n,
{
    if n == 0 {
        if ids.len() > 0 {
            assert(0 <= ids[0] < n);
        }
    } else if exists|k: int| 0 <= k < ids.len() && ids[k] == n - 1 {
        let k = choose|k: int| 0 <= k < ids.len() && ids[k] == n - 1;
        let rest = ids.remove(k);
        assert forall|a: int| #![trigger rest[a]] 0 <= a < rest.len() implies 0 <= rest[a] < n - 1 by {
            let b = if a < k {
                a
            } else {
                a + 1
            };
            assert(rest[a] == ids[b]);
            if b < k {
                assert(ids[b] != ids[k]);
            } else {
                assert(ids[k] != ids[b]);
            }
        }
        assert forall|a: int, b: int| #![trigger rest[a], rest[b]] 0 <= a < b < rest.len() implies rest[a] != rest[b] by {
            let x = if a < k {
                a
            } else {
                a + 1
            };
            let y = if b < k {
                b
            } else {
                b + 1
            };
            assert(rest[a] == ids[x] && rest[b] == ids[y]);
        }
        lemma_few(rest, (n - 1) as nat);
    } else {
        assert forall|a: int| #![trigger ids[a]] 0 <= a < ids.len() implies 0 <= ids[a] < n - 1 by {}
        lemma_few(ids, (n - 1) as nat);
    }
}

/// Which row a node has, where it has one.
pub open spec fn place_of(s: Slots, root: int, id: NodeId) -> Option<usize> {
    if exists|k: int| 0 <= k < shown(s, root).len() && #[trigger] shown(s, root)[k].id == id {
        Some((choose|k: int| 0 <= k < shown(s, root).len() && #[trigger] shown(s, root)[k].id == id) as usize)
    } else {
        None
    }
}

/// The row a node has is the one that shows it: looking a row's node up gives
/// the row back.
pub proof fn lemma_place_of(s: Slots, root: int, k: int)
    requires
        is_tree(s, root),
        0 <= k < shown(s, root).len(),
    ensures
        place_of(s, root, shown(s, root)[k].id) == Some(k as usize),
{
    lemma_rows_distinct(s, root);
    let id = shown(s, root)[k].id;
    let j = choose|j: int| 0 <= j < shown(s, root).len() && #[trigger] shown(s, root)[j].id == id;
    if j < k {
        assert(shown(s, root)[j].id != shown(s, root)[k].id);
    } else if k < j {
        assert(shown(s, root)[k].id != shown(s, root)[j].id);
    }
}

// -- walking --------------------------------------------------------------

impl Row {
    pub fn is_dir(&self) -> (r: bool)
        ensures
            r == (self.kind == Kind::Dir),
    {
        self.kind == Kind::Dir
    }
}

impl Arena {
    /// Appends the rows of `id` and whatever is visible below it.
    pub(crate) fn push_rows(&self, id: NodeId, depth: usize, last: bool, out: &mut Vec<Row>)
        requires
            self.wf(),
            live(self.slots(), id as int),
            depth + deeper(self.slots(), level(self.slots(), id as int)) <= self.slots().len(),
        ensures
            final(out)@.len() >= old(out)@.len(),
            final(out)@.take(old(out)@.len() as int) == old(out)@,
            rows_of(
                self.slots(),
                shown_from(self.slots(), id as int, depth as nat, last),
                final(out)@.skip(old(out)@.len() as int),
            ),
        decreases deeper(self.slots(), level(self.slots(), id as int)),
    {
        let ghost s = self.slots();
        let ghost before = out@;
        let node = self.node(id);
        out.push(
            Row {
                id,
                depth,
                name: node.name.clone(),
                path: node.path.clone(),
                kind: node.kind,
                symlink: node.symlink,
                expanded: node.expanded,
                ignored: node.ignored,
                size: node.size,
                last,
                omitted: node.omitted,
            },
        );
        proof {
            assert(out@.take(before.len() as int) =~= before);
            assert(out@.skip(before.len() as int) =~= seq![out@.last()]);
        }
        if node.expanded {
            let n: usize = node.children.len();
            let mut i: usize = 0;
            let ghost own = seq![Shown { id, depth: depth as nat, last }];
            assert(own + shown_below(s, id as int, 0, depth as nat) =~= own);
            while i < n
                invariant
                    i <= n,
                    n == node.children@.len(),
                    s == self.slots(),
                    self.wf(),
                    live(s, id as int),
                    *node == at(s, id as int),
                    depth + deeper(s, level(s, id as int)) <= s.len(),
                    own == seq![Shown { id, depth: depth as nat, last }],
                    out@.len() >= before.len(),
                    out@.take(before.len() as int) == before,
                    rows_of(s, own + shown_below(s, id as int, i as nat, depth as nat), out@.skip(before.len() as int)),
                decreases n - i,
            {
                let ghost c = kids(s, id as int)[i as int] as int;
                let ghost so_far = out@;
                let ghost front = own + shown_below(s, id as int, i as nat, depth as nat);
                proof {
                    assert(one_below(at(s, c).path@, at(s, id as int).path@));
                    lemma_deeper_step(s, level(s, id as int), c);
                    assert(s.len() <= usize::MAX);
                }
                self.push_rows(node.children[i], depth + 1, i + 1 == n, out);
                proof {
                    let back = shown_from(s, c, (depth + 1) as nat, i + 1 == n);
                    let b = before.len() as int;
                    let m = so_far.len() as int;
                    assert(own + shown_below(s, id as int, (i + 1) as nat, depth as nat) =~= front + back);
                    assert(out@.take(b) =~= so_far.take(b)) by {
                        assert(out@.take(m) == so_far);
                        assert(out@.take(b) =~= out@.take(m).take(b));
                    }
                    let rows = out@.skip(b);
                    assert forall|k: int| #![trigger rows[k]] 0 <= k < rows.len() implies row_of(s, (front + back)[k], rows[k]) by {
                        if k < front.len() {
                            assert(rows[k] == out@.take(m)[b + k]);
                            assert(rows[k] == so_far.skip(b)[k]);
                        } else {
                            assert(rows[k] == out@.skip(m)[k - front.len()]);
                        }
                    }
                }
                i += 1;
            }
        }
    }

    /// Looks for `target` among the rows of `id` and what is visible below it,
    /// counting on from `n`.
    fn walk(&self, id: NodeId, target: NodeId, n: usize, Ghost(depth): Ghost<nat>, Ghost(last): Ghost<bool>) -> (r: (
        bool,
        usize,
    ))
        requires
            self.wf(),
            live(self.slots(), id as int),
            n + shown_from(self.slots(), id as int, depth, last).len() <= usize::MAX,
        ensures
            ({
                let places = shown_from(self.slots(), id as int, depth, last);
                if r.0 {
                    n <= r.1 < n + places.len() && places[r.1 - n].id == target
                } else {
                    r.1 == n + places.len() && forall|k: int|
                        #![trigger places[k]]
                        0 <= k < places.len() ==> places[k].id != target
                }
            }),
        decreases deeper(self.slots(), level(self.slots(), id as int)),
    {
        let ghost s = self.slots();
        let ghost places = shown_from(s, id as int, depth, last);
        if id == target {
            assert(places[0].id == target);
            return (true, n);
        }
        let node = self.node(id);
        let mut at_row: usize = n + 1;
        if node.expanded {
            let m: usize = node.children.len();
            let ghost all = shown_below(s, id as int, m as nat, depth);
            let mut i: usize = 0;
            assert(shown_below(s, id as int, 0, depth) =~= Seq::<Shown>::empty());
            while i < m
                invariant
                    i <= m,
                    m == node.children@.len(),
                    s == self.slots(),
                    self.wf(),
                    live(s, id as int),
                    *node == at(s, id as int),
                    id != target,
                    node.expanded,
                    places == shown_from(s, id as int, depth, last),
                    all == shown_below(s, id as int, m as nat, depth),
                    n + places.len() <= usize::MAX,
                    places[0].id == id,
                    at_row == n + 1 + shown_below(s, id as int, i as nat, depth).len(),
                    forall|k: int|
                        #![trigger shown_below(s, id as int, i as nat, depth)[k]]
                        0 <= k < shown_below(s, id as int, i as nat, depth).len() ==> shown_below(
                            s,
                            id as int,
                            i as nat,
                            depth,
                        )[k].id != target,
                decreases m - i,
            {
                let ghost c = kids(s, id as int)[i as int] as int;
                let ghost front = shown_below(s, id as int, i as nat, depth);
                let ghost back = shown_from(s, c, depth + 1, i + 1 == m);
                let ghost next = shown_below(s, id as int, (i + 1) as nat, depth);
                proof {
                    assert(one_below(at(s, c).path@, at(s, id as int).path@));
                    lemma_deeper_step(s, level(s, id as int), c);
                    assert(next == front + back);
                    lemma_shown_below_prefix(s, id as int, (i + 1) as nat, m as nat, depth);
                    assert(places == seq![places[0]] + all);
                }
                let (found, row): (bool, usize) = self.walk(
                    node.children[i],
                    target,
                    at_row,
                    Ghost(depth + 1),
                    Ghost(i + 1 == m),
                );
                if found {
                    proof {
                        let k = row - at_row;
                        assert(back[k].id == target);
                        assert(next[front.len() + k] == back[k]);
                        assert(all[front.len() + k] == next[front.len() + k]);
                        assert(places[row - n] == all[front.len() + k]);
                    }
                    return (true, row);
                }
                proof {
                    assert forall|k: int| #![trigger next[k]] 0 <= k < next.len() implies next[k].id != target by {
                        if k < front.len() {
                            assert(next[k] == front[k]);
                        } else {
                            assert(next[k] == back[k - front.len()]);
                        }
                    }
                }
                at_row = row;
                i += 1;
            }
            proof {
                assert(places == seq![places[0]] + all);
                assert forall|k: int| #![trigger places[k]] 0 <= k < places.len() implies places[k].id != target by {
                    if k > 0 {
                        assert(places[k] == all[k - 1]);
                    }
                }
            }
        }
        (false, at_row)
    }

    /// Where `target` would land in the rows, without building them.
    pub(crate) fn row_index(&self, target: NodeId) -> (r: Option<usize>)
        requires
            self.wf(),
        ensures
            r == place_of(self.slots(), self.top() as int, target),
    {
        proof {
            lemma_rows_distinct(self.slots(), self.top() as int);
        }
        let (found, n): (bool, usize) = self.walk(self.root(), target, 0, Ghost(0), Ghost(true));
        if found {
            proof {
                lemma_place_of(self.slots(), self.top() as int, n as int);
            }
            Some(n)
        } else {
            None
        }
    }
}

/// Rows of the first children come before those of later ones.
proof fn lemma_shown_below_prefix(s: Slots, i: int, n: nat, m: nat, depth: nat)
    requires
        links_down(s),
        live(s, i),
        n <= m <= kids(s, i).len(),
    ensures
        shown_below(s, i, n, depth).len() <= shown_below(s, i, m, depth).len(),
        forall|k: int|
            #![trigger shown_below(s, i, m, depth)[k]]
            0 <= k < shown_below(s, i, n, depth).len() ==> shown_below(s, i, m, depth)[k] == shown_below(
                s,
                i,
                n,
                depth,
            )[k],
    decreases m,
{
    if n < m {
        lemma_shown_below_prefix(s, i, n, (m - 1) as nat, depth);
        let front = shown_below(s, i, (m - 1) as nat, depth);
        let all = shown_below(s, i, m, depth);
        assert forall|k: int| #![trigger all[k]] 0 <= k < shown_below(s, i, n, depth).len() implies all[k] == shown_below(
            s,
            i,
            n,
            depth,
        )[k] by {
            assert(all[k] == front[k]);
        }
    }
}

} // verus!
