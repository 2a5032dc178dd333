//! Where a tree's nodes live: slots that are used again once freed.

use vstd::prelude::*;

use crate::node::{
    at, distinct_names, doomed, dropped, entry_applied, free_ok, is_tree, keeps, kids, lemma_below_root,
    lemma_below_under, lemma_parent, lemma_reconciled, lemma_under_both, lemma_under_parent,
    lemma_under_same_len, lemma_under_trans, listed, listing_agrees, live, one_below, one_per_path,
    reads_alike, reconciled, Kind, Node, NodeId, Slots,
};
use crate::path::{PathView, TreePath};
use crate::scan::Entry;
use crate::text::same_bytes;

verus! {

#[derive(Debug)]
pub struct Arena {
    slots: Vec<Option<Node>>,
    free: Vec<NodeId>,
    root: NodeId,
}

// -- freeing --------------------------------------------------------------

/// Everything at or below `p` hangs together: children exist and point back,
/// and whatever is strictly below `p` is listed by its parent.
spec fn subtree_ok(s: Slots, p: PathView) -> bool {
    &&& forall|i: int, k: int|
        #![trigger kids(s, i)[k]]
        live(s, i) && at(s, i).path@.under(p) && 0 <= k < kids(s, i).len() ==> {
            let c = kids(s, i)[k] as int;
            &&& live(s, c)
            &&& at(s, c).parent == Some(i as usize)
            &&& one_below(at(s, c).path@, at(s, i).path@)
        }
    &&& forall|i: int|
        #![trigger kids(s, i)]
        live(s, i) && at(s, i).path@.under(p) ==> kids(s, i).no_duplicates()
    &&& forall|i: int|
        #![trigger hangs(s, i)]
        live(s, i) && at(s, i).path@.under(p) && at(s, i).path@ != p ==> hangs(s, i)
}

/// A node's parent exists, lists it and is one name up.
spec fn hangs(s: Slots, i: int) -> bool {
    listed(s, i) && one_below(at(s, i).path@, at(s, at(s, i).parent->0 as int).path@)
}

/// Exactly what was at or below `p` is gone.
spec fn freed(s: Slots, t: Slots, p: PathView) -> bool {
    &&& t.len() == s.len()
    &&& forall|j: int|
        #![trigger t[j]]
        0 <= j < s.len() ==> t[j] == (if live(s, j) && at(s, j).path@.under(p) {
            None
        } else {
            s[j]
        })
}

/// Whether `j` is at or below one of the first `m` of some slots.
spec fn below_first(s: Slots, ks: Seq<NodeId>, m: int, j: int) -> bool {
    exists|k: int|
        #![trigger ks[k]]
        0 <= k < m && at(s, j).path@.under(at(s, ks[k] as int).path@)
}

/// How many slots are in use.
spec fn used(s: Slots) -> nat
    decreases s.len(),
{
    if s.len() == 0 {
        0
    } else {
        used(s.drop_last()) + (if s.last() is Some {
            1nat
        } else {
            0nat
        })
    }
}

proof fn lemma_used(s: Slots, t: Slots)
    requires
        s.len() == t.len(),
        forall|j: int| #![trigger t[j]] 0 <= j < t.len() && t[j] is Some ==> s[j] is Some,
    ensures
        used(t) <= used(s),
        (exists|j: int| 0 <= j < s.len() && #[trigger] s[j] is Some && t[j] is None) ==> used(t) < used(s),
    decreases s.len(),
{
    if s.len() > 0 {
        let s1 = s.drop_last();
        let t1 = t.drop_last();
        assert forall|j: int| #![trigger t1[j]] 0 <= j < t1.len() && t1[j] is Some implies s1[j] is Some by {
            assert(t[j] is Some);
        }
        lemma_used(s1, t1);
        assert(t.last() == t[t.len() - 1]);
        assert(s.last() == s[s.len() - 1]);
        if exists|j: int| 0 <= j < s.len() && #[trigger] s[j] is Some && t[j] is None {
            let j = choose|j: int| 0 <= j < s.len() && #[trigger] s[j] is Some && t[j] is None;
            if j < s.len() - 1 {
                assert(s1[j] is Some && t1[j] is None);
            }
        }
    }
}

/// Whatever is strictly below `id` is at or below one of its children.
proof fn lemma_below_some_child(s: Slots, id: int, j: int)
    requires
        live(s, id),
        one_per_path(s),
        subtree_ok(s, at(s, id).path@),
        live(s, j),
        j != id,
        at(s, j).path@.under(at(s, id).path@),
        s.len() <= usize::MAX,
    ensures
        below_first(s, kids(s, id), kids(s, id).len() as int, j),
    decreases at(s, j).path@.names.len(),
{
    let p = at(s, id).path@;
    assert(at(s, j).path@ != p);
    assert(hangs(s, j));
    let q = at(s, j).parent->0 as int;
    let m = choose|m: int| 0 <= m < kids(s, q).len() && kids(s, q)[m] == j as usize;
    assert(kids(s, q)[m] as int == j);
    if at(s, j).path@.names.len() == p.names.len() {
        lemma_under_same_len(at(s, j).path@, p);
    }
    assert(live(s, q));
    if q == id {
        assert(at(s, j).path@.under(at(s, kids(s, id)[m] as int).path@));
    } else {
        lemma_parent_in_subtree(s, id, j);
        lemma_below_some_child(s, id, q);
        let k = choose|k: int|
            #![trigger kids(s, id)[k]]
            0 <= k < kids(s, id).len() && at(s, q).path@.under(at(s, kids(s, id)[k] as int).path@);
        lemma_below_under(at(s, j).path@, at(s, q).path@);
        lemma_under_trans(at(s, j).path@, at(s, q).path@, at(s, kids(s, id)[k] as int).path@);
    }
}

/// The parent of something strictly below `id` is at or below `id`, one name
/// up.
proof fn lemma_parent_in_subtree(s: Slots, id: int, j: int)
    requires
        live(s, id),
        one_per_path(s),
        subtree_ok(s, at(s, id).path@),
        live(s, j),
        at(s, j).path@ != at(s, id).path@,
        at(s, j).path@.under(at(s, id).path@),
        s.len() <= usize::MAX,
    ensures
        at(s, j).parent is Some,
        live(s, at(s, j).parent->0 as int),
        at(s, at(s, j).parent->0 as int).path@.under(at(s, id).path@),
        one_below(at(s, j).path@, at(s, at(s, j).parent->0 as int).path@),
{
    let p = at(s, id).path@;
    assert(hangs(s, j));
    if at(s, j).path@.names.len() == p.names.len() {
        lemma_under_same_len(at(s, j).path@, p);
    }
    lemma_under_parent(at(s, j).path@, at(s, at(s, j).parent->0 as int).path@, p);
}

/// A subtree nothing has touched still hangs together.
proof fn lemma_untouched(s: Slots, t: Slots, p: PathView)
    requires
        one_per_path(s),
        subtree_ok(s, p),
        s.len() <= t.len() <= usize::MAX,
        forall|j: int| #![trigger t[j]] 0 <= j < s.len() ==> t[j] == s[j] || t[j] is None,
        forall|j: int| #![trigger t[j]] s.len() <= j < t.len() ==> t[j] is None,
        forall|j: int| #![trigger t[j]] live(s, j) && at(s, j).path@.under(p) ==> t[j] == s[j],
    ensures
        one_per_path(t),
        subtree_ok(t, p),
{
    assert forall|i: int, j: int| #![trigger at(t, i).path@, at(t, j).path@] live(t, i) && live(t, j) && at(t, i).path@ == at(t, j).path@ implies i == j by {
        assert(t[i] == s[i] && t[j] == s[j]);
        assert(at(s, i).path@ == at(s, j).path@);
    }
    assert forall|i: int, k: int| #![trigger kids(t, i)[k]] live(t, i) && at(t, i).path@.under(p) && 0 <= k < kids(t, i).len() implies {
        let d = kids(t, i)[k] as int;
        &&& live(t, d)
        &&& at(t, d).parent == Some(i as usize)
        &&& one_below(at(t, d).path@, at(t, i).path@)
    } by {
        assert(t[i] == s[i]);
        let d = kids(s, i)[k] as int;
        assert(live(s, d) && one_below(at(s, d).path@, at(s, i).path@));
        lemma_below_under(at(s, d).path@, at(s, i).path@);
        lemma_under_trans(at(s, d).path@, at(s, i).path@, p);
        assert(t[d] == s[d]);
    }
    assert forall|i: int| #![trigger kids(t, i)] live(t, i) && at(t, i).path@.under(p) implies kids(t, i).no_duplicates() by {
        assert(t[i] == s[i]);
        assert(kids(s, i).no_duplicates());
    }
    assert forall|i: int| #![trigger hangs(t, i)] live(t, i) && at(t, i).path@.under(p) && at(t, i).path@ != p implies hangs(
        t,
        i,
    ) by {
        assert(t[i] == s[i]);
        assert(hangs(s, i));
        let pi = at(s, i).path@;
        let q = at(s, i).parent->0 as int;
        if pi.names.len() == p.names.len() {
            lemma_under_same_len(pi, p);
        }
        lemma_under_parent(pi, at(s, q).path@, p);
        assert(t[q] == s[q]);
    }
}

/// What hangs together below a node hangs together below each of its children.
proof fn lemma_narrower(s: Slots, p: PathView, q: PathView)
    requires
        subtree_ok(s, p),
        q.under(p),
        q.names.len() == p.names.len() + 1,
    ensures
        subtree_ok(s, q),
{
    assert forall|i: int| live(s, i) && #[trigger] at(s, i).path@.under(q) implies at(s, i).path@.under(p) by {
        lemma_under_trans(at(s, i).path@, q, p);
    }
}

/// Children freed so far leave the next one whole.
proof fn lemma_next_child_ok(s: Slots, t: Slots, id: int, m: int)
    requires
        live(s, id),
        one_per_path(s),
        subtree_ok(s, at(s, id).path@),
        s.len() <= usize::MAX,
        0 <= m < kids(s, id).len(),
        t.len() == s.len(),
        forall|j: int|
            #![trigger t[j]]
            0 <= j < s.len() ==> t[j] == (if j == id || (live(s, j) && below_first(s, kids(s, id), m, j)) {
                None
            } else {
                s[j]
            }),
    ensures
        live(t, kids(s, id)[m] as int),
        t[kids(s, id)[m] as int] == s[kids(s, id)[m] as int],
        one_per_path(t),
        subtree_ok(t, at(s, kids(s, id)[m] as int).path@),
{
    let ks = kids(s, id);
    let c = ks[m] as int;
    let p = at(s, id).path@;
    let pc = at(s, c).path@;
    assert(p.under(p));
    assert(live(s, c) && one_below(pc, p));
    lemma_below_under(pc, p);
    // Whatever is at or below `c` is at or below no earlier child.
    assert forall|j: int| #![trigger t[j]] live(s, j) && at(s, j).path@.under(pc) implies t[j] == s[j] by {
        lemma_under_trans(at(s, j).path@, pc, p);
        if below_first(s, ks, m, j) {
            let k = choose|k: int|
                #![trigger ks[k]]
                0 <= k < m && at(s, j).path@.under(at(s, ks[k] as int).path@);
            assert(one_below(at(s, kids(s, id)[k] as int).path@, p));
            lemma_under_both(at(s, j).path@, at(s, ks[k] as int).path@, pc);
            assert(ks[k] as int == c);
            assert(ks.no_duplicates());
        }
    }
    assert(pc.under(pc));
    assert(t[c] == s[c]);
    lemma_narrower(s, p, pc);
    lemma_untouched(s, t, pc);
}

/// Every node but the root heads a subtree that hangs together.
proof fn lemma_subtree_of_tree(s: Slots, root: int, id: int)
    requires
        is_tree(s, root),
        live(s, id),
    ensures
        subtree_ok(s, at(s, id).path@),
{
    lemma_below_root(s, root, id);
    assert forall|i: int| #![trigger hangs(s, i)] live(s, i) && at(s, i).path@.under(at(s, id).path@) && at(s, i).path@ != at(
        s,
        id,
    ).path@ implies hangs(s, i) by {
        if i == root {
            lemma_under_same_len(at(s, id).path@, at(s, root).path@);
        }
        lemma_parent(s, root, i);
        assert(listed(s, i));
    }
}

// -- reconciling ----------------------------------------------------------

/// Whether `n`, a child of the directory listed, is what the entry describes.
spec fn describes(n: Node, e: Entry) -> bool {
    n.path@.names.last() == e.name@ && n.kind == e.kind
}

proof fn lemma_describes(s: Slots, root: int, id: int, e: Entry, k: int)
    requires
        is_tree(s, root),
        live(s, id),
        0 <= k < kids(s, id).len(),
    ensures
        live(s, kids(s, id)[k] as int),
        describes(at(s, kids(s, id)[k] as int), e) <==> keeps(s, id, e, kids(s, id)[k]),
{
    let c = kids(s, id)[k] as int;
    let p = at(s, id).path@;
    let pc = at(s, c).path@;
    assert(one_below(pc, p));
    assert(pc.names =~= p.names.push(pc.names.last()));
    assert(p.child(e.name@).names.last() == e.name@);
}

/// Whether `j` is at or below one of the first `m` children not marked.
spec fn below_unmarked(s: Slots, ks: Seq<NodeId>, marks: Seq<bool>, m: int, j: int) -> bool {
    exists|k: int|
        #![trigger ks[k]]
        0 <= k < m && !marks[k] && at(s, j).path@.under(at(s, ks[k] as int).path@)
}

/// The children not marked, up to the first `m`, are gone with all below them.
spec fn dropped_first(s: Slots, t: Slots, ks: Seq<NodeId>, marks: Seq<bool>, m: int) -> bool {
    &&& s.len() <= t.len() <= usize::MAX
    &&& forall|j: int|
        #![trigger t[j]]
        0 <= j < s.len() ==> t[j] == (if live(s, j) && below_unmarked(s, ks, marks, m, j) {
            None
        } else {
            s[j]
        })
    &&& forall|j: int| #![trigger t[j]] s.len() <= j < t.len() ==> t[j] is None
}

/// One name below `id`, nothing but a child itself is at or below that child.
proof fn lemma_sibling(s: Slots, root: int, id: int, a: int, k: int, j: int)
    requires
        is_tree(s, root),
        live(s, id),
        0 <= a < kids(s, id).len(),
        0 <= k < kids(s, id).len(),
        at(s, j).path@.under(at(s, kids(s, id)[a] as int).path@),
        at(s, j).path@.under(at(s, kids(s, id)[k] as int).path@),
    ensures
        a == k,
{
    let ca = kids(s, id)[a] as int;
    let ck = kids(s, id)[k] as int;
    assert(one_below(at(s, ca).path@, at(s, id).path@));
    assert(one_below(at(s, ck).path@, at(s, id).path@));
    lemma_under_both(at(s, j).path@, at(s, ca).path@, at(s, ck).path@);
    assert(ca == ck);
    assert(kids(s, id).no_duplicates());
}

/// Dropping some children leaves every other child whole.
proof fn lemma_other_child_ok(s: Slots, t: Slots, root: int, id: int, marks: Seq<bool>, m: int, a: int)
    requires
        is_tree(s, root),
        live(s, id),
        dropped_first(s, t, kids(s, id), marks, m),
        0 <= m <= kids(s, id).len(),
        0 <= a < kids(s, id).len(),
        m <= a || marks[a],
    ensures
        live(t, kids(s, id)[a] as int),
        t[kids(s, id)[a] as int] == s[kids(s, id)[a] as int],
        one_per_path(t),
        subtree_ok(t, at(s, kids(s, id)[a] as int).path@),
{
    let ks = kids(s, id);
    let c = ks[a] as int;
    let pc = at(s, c).path@;
    assert(live(s, kids(s, id)[a] as int));
    assert forall|j: int| #![trigger t[j]] live(s, j) && at(s, j).path@.under(pc) implies t[j] == s[j] by {
        if below_unmarked(s, ks, marks, m, j) {
            let k = choose|k: int|
                #![trigger ks[k]]
                0 <= k < m && !marks[k] && at(s, j).path@.under(at(s, ks[k] as int).path@);
            lemma_sibling(s, root, id, a, k, j);
        }
    }
    assert(pc.under(pc));
    assert(t[c] == s[c]);
    lemma_subtree_of_tree(s, root, c);
    lemma_untouched(s, t, pc);
}

/// The directory itself is not below any of its children.
proof fn lemma_parent_kept(s: Slots, t: Slots, root: int, id: int, marks: Seq<bool>, m: int)
    requires
        is_tree(s, root),
        live(s, id),
        dropped_first(s, t, kids(s, id), marks, m),
        0 <= m <= kids(s, id).len(),
    ensures
        t[id] == s[id],
{
    let ks = kids(s, id);
    if below_unmarked(s, ks, marks, m, id) {
        let k = choose|k: int|
            #![trigger ks[k]]
            0 <= k < m && !marks[k] && at(s, id).path@.under(at(s, ks[k] as int).path@);
        assert(one_below(at(s, kids(s, id)[k] as int).path@, at(s, id).path@));
    }
}

proof fn lemma_below_unmarked_step(s: Slots, ks: Seq<NodeId>, marks: Seq<bool>, m: int, j: int)
    requires
        0 <= m < ks.len(),
    ensures
        below_unmarked(s, ks, marks, m + 1, j) <==> below_unmarked(s, ks, marks, m, j) || (!marks[m] && at(
            s,
            j,
        ).path@.under(at(s, ks[m] as int).path@)),
{
    if below_unmarked(s, ks, marks, m + 1, j) {
        let k = choose|k: int|
            #![trigger ks[k]]
            0 <= k < m + 1 && !marks[k] && at(s, j).path@.under(at(s, ks[k] as int).path@);
        assert(k == m || k < m);
    }
    if below_unmarked(s, ks, marks, m, j) {
        let k = choose|k: int|
            #![trigger ks[k]]
            0 <= k < m && !marks[k] && at(s, j).path@.under(at(s, ks[k] as int).path@);
        assert(k < m + 1);
    }
    assert(ks[m] == ks[m]);
}

/// The slot set aside for one entry of a listing.
spec fn planned(s: Slots, id: int, e: Entry, c: NodeId) -> bool {
    ||| keeps(s, id, e, c)
    ||| !live(s, c as int) && (forall|d: NodeId| #![trigger kids(s, id).contains(d)] !keeps(s, id, e, d))
}

/// A node with its directory shut.
pub open spec fn shut(slot: Option<Node>) -> Option<Node> {
    match slot {
        Some(node) => Some((Node { expanded: false, ..node })),
        None => None,
    }
}

/// Every directory shut.
pub open spec fn all_shut(s: Slots) -> Slots {
    s.map_values(|slot: Option<Node>| shut(slot))
}

/// Opening and shutting directories changes nothing about the tree's shape.
proof fn lemma_reshut(s: Slots, t: Slots, root: int)
    requires
        is_tree(s, root),
        t.len() == s.len(),
        forall|j: int|
            #![trigger t[j]]
            0 <= j < s.len() ==> {
                &&& t[j] is Some <==> s[j] is Some
                &&& t[j] matches Some(n) ==> n == (Node { expanded: n.expanded, ..at(s, j) })
                &&& t[j] matches Some(n) ==> n.expanded ==> n.kind == Kind::Dir && n.loaded
            },
    ensures
        is_tree(t, root),
{
    assert forall|i: int, k: int| #![trigger kids(t, i)[k]] live(t, i) && 0 <= k < kids(t, i).len() implies {
        let c = kids(t, i)[k] as int;
        &&& live(t, c)
        &&& at(t, c).parent == Some(i as usize)
        &&& one_below(at(t, c).path@, at(t, i).path@)
    } by {
        assert(t[i] is Some);
        assert(kids(t, i) == kids(s, i));
        let c = kids(s, i)[k] as int;
        assert(live(s, c));
        assert(t[c] is Some);
    }
    assert forall|i: int| #![trigger listed(t, i)] live(t, i) && i != root implies listed(t, i) by {
        assert(t[i] is Some);
        assert(listed(s, i));
        assert(t[at(s, i).parent->0 as int] is Some);
    }
    assert forall|i: int| #![trigger kids(t, i)] live(t, i) implies kids(t, i).no_duplicates() by {
        assert(t[i] is Some);
        assert(kids(s, i).no_duplicates());
    }
    assert forall|i: int| #![trigger kids(t, i)] live(t, i) && kids(t, i).len() > 0 implies at(t, i).kind
        == Kind::Dir && at(t, i).loaded by {
        assert(t[i] is Some);
        assert(kids(s, i).len() > 0);
    }
    assert forall|i: int, j: int| #![trigger at(t, i).path@, at(t, j).path@] live(t, i) && live(t, j) && at(t, i).path@ == at(t, j).path@ implies i == j by {
        assert(t[i] is Some && t[j] is Some);
        assert(at(s, i).path@ == at(s, j).path@);
    }
    assert forall|i: int| #![trigger at(t, i).name@] live(t, i) implies at(t, i).name@ == at(t, i).path@.title() by {
        assert(t[i] is Some);
        assert(at(s, i).name@ == at(s, i).path@.title());
    }
    assert(t[root] is Some);
}

proof fn lemma_reshut_free(s: Slots, t: Slots, free: Seq<NodeId>)
    requires
        free_ok(s, free),
        t.len() == s.len(),
        forall|j: int| #![trigger t[j]] 0 <= j < s.len() ==> (t[j] is Some <==> s[j] is Some),
    ensures
        free_ok(t, free),
{
    assert forall|k: int| #![trigger free[k]] 0 <= k < free.len() implies free[k] < t.len() && t[free[k] as int] is None by {
        assert(s[free[k] as int] is None);
    }
}

impl Arena {
    pub closed spec fn slots(&self) -> Slots {
        self.slots@
    }

    pub closed spec fn spare(&self) -> Seq<NodeId> {
        self.free@
    }

    /// The root's slot.
    pub closed spec fn top(&self) -> NodeId {
        self.root
    }

    /// The nodes form one tree, and the spare slots are empty.
    pub open spec fn wf(&self) -> bool {
        is_tree(self.slots(), self.top() as int) && free_ok(self.slots(), self.spare())
    }

    /// The child of a directory that an entry describes, looked for from
    /// position `from` round: a listing mostly comes back in the order it had.
    fn find_described(&self, ks: &Vec<NodeId>, e: &Entry, from: usize) -> (r: Option<usize>)
        requires
            forall|k: int| #![trigger ks@[k]] 0 <= k < ks@.len() ==> live(self.slots(), ks@[k] as int),
            forall|k: int|
                #![trigger ks@[k]]
                0 <= k < ks@.len() ==> at(self.slots(), ks@[k] as int).path@.names.len() > 0,
            from <= ks@.len(),
        ensures
            r matches Some(k) ==> k < ks@.len() && describes(at(self.slots(), ks@[k as int] as int), *e),
            r is None ==> forall|k: int|
                #![trigger ks@[k]]
                0 <= k < ks@.len() ==> !describes(at(self.slots(), ks@[k] as int), *e),
    {
        let mut i: usize = from;
        while i < ks.len()
            invariant
                from <= i <= ks@.len(),
                forall|k: int| #![trigger ks@[k]] 0 <= k < ks@.len() ==> live(self.slots@, ks@[k] as int),
                forall|k: int|
                    #![trigger ks@[k]]
                    0 <= k < ks@.len() ==> at(self.slots@, ks@[k] as int).path@.names.len() > 0,
                forall|k: int|
                    #![trigger ks@[k]]
                    from <= k < i ==> !describes(at(self.slots@, ks@[k] as int), *e),
            decreases ks.len() - i,
        {
            if self.is_described(ks[i], e) {
                return Some(i);
            }
            i += 1;
        }
        i = 0;
        while i < from
            invariant
                i <= from <= ks@.len(),
                forall|k: int| #![trigger ks@[k]] 0 <= k < ks@.len() ==> live(self.slots@, ks@[k] as int),
                forall|k: int|
                    #![trigger ks@[k]]
                    0 <= k < ks@.len() ==> at(self.slots@, ks@[k] as int).path@.names.len() > 0,
                forall|k: int|
                    #![trigger ks@[k]]
                    0 <= k < i || from <= k < ks@.len() ==> !describes(at(self.slots@, ks@[k] as int), *e),
            decreases from - i,
        {
            if self.is_described(ks[i], e) {
                return Some(i);
            }
            i += 1;
        }
        None
    }

    fn is_described(&self, c: NodeId, e: &Entry) -> (r: bool)
        requires
            live(self.slots(), c as int),
            at(self.slots(), c as int).path@.names.len() > 0,
        ensures
            r == describes(at(self.slots(), c as int), *e),
    {
        match &self.slots[c] {
            Some(node) => match node.path.last_name() {
                Some(name) => node.kind == e.kind && same_bytes(name.as_slice(), e.name.as_slice()),
                None => false,
            },
            None => false,
        }
    }

    /// Takes a slot for a node still to come.
    fn reserve(&mut self) -> (id: NodeId)
        requires
            free_ok(old(self).slots(), old(self).spare()),
        ensures
            final(self).top() == old(self).top(),
            free_ok(final(self).slots(), final(self).spare()),
            id < final(self).slots().len() <= usize::MAX,
            final(self).slots()[id as int] is None,
            !final(self).spare().contains(id),
            forall|x: NodeId|
                #![trigger final(self).spare().contains(x)]
                final(self).spare().contains(x) ==> old(self).spare().contains(x),
            old(self).spare().contains(id) || id == old(self).slots().len(),
            old(self).slots().len() <= final(self).slots().len(),
            forall|j: int|
                #![trigger final(self).slots()[j]]
                0 <= j < old(self).slots().len() ==> final(self).slots()[j] == old(self).slots()[j],
            forall|j: int|
                #![trigger final(self).slots()[j]]
                old(self).slots().len() <= j < final(self).slots().len() ==> final(self).slots()[j] is None,
    {
        let ghost s = self.slots@;
        let ghost spare = self.free@;
        match self.free.pop() {
            Some(id) => {
                proof {
                    assert(self.free@ =~= spare.drop_last());
                    assert(id == spare[spare.len() - 1]);
                    assert(spare.contains(id));
                    assert(s[id as int] is None);
                    assert forall|x: NodeId| #![trigger self.free@.contains(x)] self.free@.contains(x) implies spare.contains(x) by {
                        let k = choose|k: int| 0 <= k < self.free@.len() && self.free@[k] == x;
                        assert(spare[k] == x);
                    }
                    assert forall|k: int| #![trigger self.free@[k]] 0 <= k < self.free@.len() implies self.free@[k] < self.slots@.len()
                        && self.slots@[self.free@[k] as int] is None by {
                        assert(spare[k] == self.free@[k]);
                    }
                    assert(self.slots.len() == s.len());
                }
                id
            }
            None => {
                let id: NodeId = self.slots.len();
                self.slots.push(None);
                proof {
                    assert(self.free@ =~= spare);
                    assert(self.slots@ =~= s.push(None));
                    assert forall|k: int| #![trigger self.free@[k]] 0 <= k < self.free@.len() implies self.free@[k] < self.slots@.len()
                        && self.slots@[self.free@[k] as int] is None by {
                        assert(spare[k] == self.free@[k]);
                    }
                    if spare.contains(id) {
                        let k = choose|k: int| 0 <= k < spare.len() && spare[k] == id;
                        assert(spare[k] < s.len());
                    }
                    assert(self.slots.len() == s.len() + 1);
                }
                id
            }
        }
    }

    /// Frees a node and everything under it.
    fn free_subtree(&mut self, id: NodeId)
        requires
            live(old(self).slots(), id as int),
            one_per_path(old(self).slots()),
            subtree_ok(old(self).slots(), at(old(self).slots(), id as int).path@),
            free_ok(old(self).slots(), old(self).spare()),
        ensures
            final(self).top() == old(self).top(),
            freed(old(self).slots(), final(self).slots(), at(old(self).slots(), id as int).path@),
            free_ok(final(self).slots(), final(self).spare()),
            forall|x: NodeId|
                #![trigger final(self).spare().contains(x)]
                final(self).spare().contains(x) ==> old(self).spare().contains(x) || live(old(self).slots(), x as int),
        decreases used(old(self).slots()),
    {
        let ghost s = self.slots@;
        let ghost p = at(s, id as int).path@;
        let ghost ks = kids(s, id as int);
        let ghost spare = self.free@;
        assert(s.len() == self.slots.len());
        let taken: Option<Node> = self.slots[id].take();
        let children: Vec<NodeId> = match taken {
            Some(node) => node.children,
            None => Vec::new(),
        };
        proof {
            assert(self.slots@ =~= s.update(id as int, None));
            assert(children@ == ks);
            assert forall|k: int| #![trigger self.free@[k]] 0 <= k < self.free@.len() implies self.free@[k] < self.slots@.len()
                && self.slots@[self.free@[k] as int] is None by {
                assert(s[spare[k] as int] is None);
            }
        }
        let mut m: usize = 0;
        while m < children.len()
            invariant
                m <= children.len(),
                children@ == ks,
                ks == kids(s, id as int),
                s == old(self).slots@,
                p == at(s, id as int).path@,
                spare == old(self).free@,
                s.len() <= usize::MAX,
                live(s, id as int),
                one_per_path(s),
                subtree_ok(s, p),
                free_ok(s, spare),
                self.root == old(self).root,
                self.slots@.len() == s.len(),
                forall|j: int|
                    #![trigger self.slots@[j]]
                    0 <= j < s.len() ==> self.slots@[j] == (if j == id || (live(s, j) && below_first(s, ks, m as int, j)) {
                        None
                    } else {
                        s[j]
                    }),
                free_ok(self.slots@, self.free@),
                forall|x: NodeId|
                    #![trigger self.free@.contains(x)]
                    self.free@.contains(x) ==> spare.contains(x) || (live(s, x as int) && x != id),
            decreases children.len() - m,
        {
            let ghost t = self.slots@;
            let ghost spare_t = self.free@;
            proof {
                lemma_next_child_ok(s, t, id as int, m as int);
                assert forall|j: int| #![trigger t[j]] 0 <= j < t.len() && t[j] is Some implies s[j] is Some by {}
                assert(s[id as int] is Some && t[id as int] is None);
                lemma_used(s, t);
            }
            self.free_subtree(children[m]);
            proof {
                let c = ks[m as int] as int;
                let pc = at(s, c).path@;
                assert(at(t, c) == at(s, c));
                assert forall|j: int| #![trigger self.slots@[j]] 0 <= j < s.len() implies self.slots@[j] == (if j == id || (live(s, j)
                    && below_first(s, ks, m + 1, j)) {
                    None
                } else {
                    s[j]
                }) by {
                    if live(s, j) && below_first(s, ks, m + 1, j) && !below_first(s, ks, m as int, j) {
                        let k = choose|k: int|
                            #![trigger ks[k]]
                            0 <= k < m + 1 && at(s, j).path@.under(at(s, ks[k] as int).path@);
                        assert(k == m);
                    }
                    if live(s, j) && below_first(s, ks, m as int, j) {
                        let k = choose|k: int|
                            #![trigger ks[k]]
                            0 <= k < m && at(s, j).path@.under(at(s, ks[k] as int).path@);
                        assert(0 <= k < m + 1);
                    }
                    assert(t[j] == (if j == id || (live(s, j) && below_first(s, ks, m as int, j)) {
                        None
                    } else {
                        s[j]
                    }));
                    if live(s, j) && at(s, j).path@.under(pc) {
                        assert(ks[m as int] as int == c);
                        assert(below_first(s, ks, m + 1, j));
                    }
                }
                assert forall|x: NodeId| #![trigger self.free@.contains(x)] self.free@.contains(x) implies spare.contains(x) || (live(s, x as int)
                    && x != id) by {
                    if spare_t.contains(x) {
                    } else {
                        assert(live(t, x as int));
                        assert(t[x as int] == s[x as int]);
                    }
                }
            }
            m += 1;
        }
        let ghost t = self.slots@;
        let ghost spare_t = self.free@;
        self.free.push(id);
        proof {
            assert forall|j: int| #![trigger t[j]] 0 <= j < s.len() implies t[j] == (if live(s, j) && at(s, j).path@.under(p) {
                None
            } else {
                s[j]
            }) by {
                assert(p.under(p));
                if live(s, j) && at(s, j).path@.under(p) && j != id {
                    lemma_below_some_child(s, id as int, j);
                }
                if live(s, j) && below_first(s, ks, ks.len() as int, j) {
                    let k = choose|k: int|
                        #![trigger ks[k]]
                        0 <= k < ks.len() && at(s, j).path@.under(at(s, ks[k] as int).path@);
                    assert(one_below(at(s, kids(s, id as int)[k] as int).path@, p));
                    lemma_below_under(at(s, ks[k] as int).path@, p);
                    lemma_under_trans(at(s, j).path@, at(s, ks[k] as int).path@, p);
                }
            }
            assert(!spare_t.contains(id)) by {
                if spare_t.contains(id) {
                    let k = choose|k: int| 0 <= k < spare.len() && spare[k] == id;
                    assert(s[spare[k] as int] is None);
                }
            }
            assert(t[id as int] is None);
            assert forall|a: int, b: int| 0 <= a < self.free@.len() && 0 <= b < self.free@.len() && a != b implies self.free@[a] != self.free@[b] by {
                if a < spare_t.len() && b < spare_t.len() {
                    assert(spare_t[a] != spare_t[b]);
                } else if a < spare_t.len() {
                    assert(spare_t.contains(spare_t[a]));
                } else if b < spare_t.len() {
                    assert(spare_t.contains(spare_t[b]));
                }
            }
            assert forall|k: int| #![trigger self.free@[k]] 0 <= k < self.free@.len() implies self.free@[k] < self.slots@.len()
                && self.slots@[self.free@[k] as int] is None by {
                if k < spare_t.len() {
                    assert(t[spare_t[k] as int] is None);
                }
            }
            assert forall|x: NodeId| #![trigger self.free@.contains(x)] self.free@.contains(x) implies spare.contains(x) || live(s, x as int) by {
                if x != id {
                    let k = choose|k: int| 0 <= k < self.free@.len() && self.free@[k] == x;
                    assert(spare_t[k] == x);
                    assert(spare_t.contains(x));
                }
            }
        }
    }

    /// Decides which slot each entry of a listing of `id` goes in, and which of
    /// the old children stay.
    fn plan(&mut self, id: NodeId, ks: &Vec<NodeId>, entries: &Vec<Entry>) -> (r: (Vec<NodeId>, Vec<bool>))
        requires
            old(self).wf(),
            live(old(self).slots(), id as int),
            ks@ == kids(old(self).slots(), id as int),
            distinct_names(entries@),
        ensures
            final(self).top() == old(self).top(),
            free_ok(final(self).slots(), final(self).spare()),
            dropped_first(old(self).slots(), final(self).slots(), ks@, r.1@, 0),
            r.0@.len() == entries@.len(),
            r.0@.no_duplicates(),
            forall|k: int|
                #![trigger r.0@[k]]
                0 <= k < entries@.len() ==> {
                    &&& planned(old(self).slots(), id as int, entries@[k], r.0@[k])
                    &&& r.0@[k] < final(self).slots().len()
                    &&& !final(self).spare().contains(r.0@[k])
                },
            r.1@.len() == ks@.len(),
            forall|a: int|
                #![trigger r.1@[a]]
                0 <= a < ks@.len() ==> r.1@[a] == !dropped(old(self).slots(), id as int, entries@, ks@[a]),
    {
        let ghost s = self.slots@;
        let ghost root = self.root as int;
        let ghost p = at(s, id as int).path@;
        let mut plan: Vec<NodeId> = Vec::new();
        let mut marks: Vec<bool> = Vec::new();
        let mut a: usize = 0;
        while a < ks.len()
            invariant
                a <= ks@.len(),
                marks@.len() == a,
                forall|b: int| #![trigger marks@[b]] 0 <= b < a ==> !marks@[b],
            decreases ks.len() - a,
        {
            marks.push(false);
            a += 1;
        }
        let mut from: usize = 0;
        let mut i: usize = 0;
        assert(s.len() == self.slots.len());
        while i < entries.len()
            invariant
                i <= entries@.len(),
                from <= ks@.len(),
                s == old(self).slots@,
                root == old(self).root as int,
                self.root == old(self).root,
                p == at(s, id as int).path@,
                ks@ == kids(s, id as int),
                is_tree(s, root),
                live(s, id as int),
                distinct_names(entries@),
                free_ok(self.slots@, self.free@),
                s.len() <= self.slots@.len() <= usize::MAX,
                forall|j: int| #![trigger self.slots@[j]] 0 <= j < s.len() ==> self.slots@[j] == s[j],
                forall|j: int| #![trigger self.slots@[j]] s.len() <= j < self.slots@.len() ==> self.slots@[j] is None,
                plan@.len() == i,
                plan@.no_duplicates(),
                forall|k: int|
                    #![trigger plan@[k]]
                    0 <= k < i ==> {
                        &&& planned(s, id as int, entries@[k], plan@[k])
                        &&& plan@[k] < self.slots@.len()
                        &&& !self.free@.contains(plan@[k])
                    },
                marks@.len() == ks@.len(),
                forall|b: int|
                    #![trigger marks@[b]]
                    0 <= b < ks@.len() ==> (marks@[b] <==> exists|k: int|
                        #![trigger entries@[k]]
                        0 <= k < i && keeps(s, id as int, entries@[k], ks@[b])),
            decreases entries.len() - i,
        {
            let ghost t = self.slots@;
            let ghost spare = self.free@;
            let ghost plan0 = plan@;
            let ghost marks0 = marks@;
            let ghost e = entries@[i as int];
            proof {
                assert forall|k: int| #![trigger ks@[k]] 0 <= k < ks@.len() implies live(t, ks@[k] as int) && at(t, ks@[k] as int).path@.names.len() > 0
                    && at(t, ks@[k] as int) == at(s, ks@[k] as int) by {
                    assert(one_below(at(s, kids(s, id as int)[k] as int).path@, p));
                }
            }
            match self.find_described(ks, &entries[i], from) {
                Some(k) => {
                    let ghost c = ks@[k as int];
                    proof {
                        lemma_describes(s, root, id as int, e, k as int);
                        assert(keeps(s, id as int, e, c));
                        assert(live(s, c as int));
                        // No earlier entry has this name.
                        assert forall|q: int| 0 <= q < i implies #[trigger] plan0[q] != c by {
                            if plan0[q] == c {
                                assert(planned(s, id as int, entries@[q], plan0[q]));
                                lemma_describes(s, root, id as int, entries@[q], k as int);
                                assert(entries@[q].name@ == e.name@);
                            }
                        }
                        if spare.contains(c) {
                            let x = choose|x: int| 0 <= x < spare.len() && spare[x] == c;
                            assert(t[spare[x] as int] is None);
                        }
                    }
                    assert(k < ks.len());
                    plan.push(ks[k]);
                    marks[k] = true;
                    from = k + 1;
                    proof {
                        assert(marks@ =~= marks0.update(k as int, true));
                        assert forall|b: int| #![trigger marks@[b]] 0 <= b < ks@.len() implies (marks@[b] <==> exists|q: int|
                            #![trigger entries@[q]]
                            0 <= q < i + 1 && keeps(s, id as int, entries@[q], ks@[b])) by {
                            if b == k {
                                assert(entries@[i as int] == e);
                            } else {
                                assert(marks0[b] == marks@[b]);
                                if keeps(s, id as int, e, ks@[b]) {
                                    assert(live(s, kids(s, id as int)[b] as int));
                                    assert(at(s, ks@[b] as int).path@ == at(s, c as int).path@);
                                    assert(ks@[b] == c);
                                    assert(kids(s, id as int).no_duplicates());
                                }
                            }
                        }
                    }
                }
                None => {
                    proof {
                        assert forall|d: NodeId| #![trigger kids(s, id as int).contains(d)] !keeps(s, id as int, e, d) by {
                            if keeps(s, id as int, e, d) {
                                let k = choose|k: int| 0 <= k < ks@.len() && ks@[k] == d;
                                lemma_describes(s, root, id as int, e, k);
                                assert(!describes(at(t, ks@[k] as int), e));
                            }
                        }
                    }
                    let c: NodeId = self.reserve();
                    plan.push(c);
                    proof {
                        assert(!live(s, c as int)) by {
                            if live(s, c as int) {
                                assert(self.slots@[c as int] == s[c as int]);
                            }
                        }
                        assert(planned(s, id as int, e, c));
                        assert forall|q: int| 0 <= q < i implies #[trigger] plan0[q] != c by {}
                        assert forall|q: int| #![trigger plan@[q]] 0 <= q < i + 1 implies !self.free@.contains(plan@[q]) && plan@[q] < self.slots@.len() by {
                            if q < i {
                                assert(plan0[q] == plan@[q]);
                                assert(!spare.contains(plan0[q]));
                            }
                        }
                        assert forall|b: int| #![trigger marks@[b]] 0 <= b < ks@.len() implies (marks@[b] <==> exists|q: int|
                            #![trigger entries@[q]]
                            0 <= q < i + 1 && keeps(s, id as int, entries@[q], ks@[b])) by {
                            assert(kids(s, id as int).contains(ks@[b]));
                            assert(!keeps(s, id as int, e, ks@[b]));
                        }
                    }
                }
            }
            i += 1;
        }
        proof {
            assert forall|b: int| #![trigger marks@[b]] 0 <= b < ks@.len() implies marks@[b] == !dropped(s, id as int, entries@, ks@[b]) by {
                assert(kids(s, id as int).contains(ks@[b]));
            }
        }
        (plan, marks)
    }

    /// Frees the children that were not marked to stay.
    fn drop_unmarked(&mut self, id: NodeId, ks: &Vec<NodeId>, marks: &Vec<bool>, Ghost(s): Ghost<Slots>)
        requires
            is_tree(s, old(self).top() as int),
            live(s, id as int),
            ks@ == kids(s, id as int),
            marks@.len() == ks@.len(),
            dropped_first(s, old(self).slots(), ks@, marks@, 0),
            free_ok(old(self).slots(), old(self).spare()),
        ensures
            final(self).top() == old(self).top(),
            final(self).slots().len() == old(self).slots().len(),
            dropped_first(s, final(self).slots(), ks@, marks@, ks@.len() as int),
            free_ok(final(self).slots(), final(self).spare()),
            forall|x: NodeId|
                #![trigger final(self).spare().contains(x)]
                final(self).spare().contains(x) ==> old(self).spare().contains(x) || (live(s, x as int) && !live(
                    final(self).slots(),
                    x as int,
                )),
    {
        let ghost root = self.root as int;
        let ghost spare = self.free@;
        let mut m: usize = 0;
        while m < ks.len()
            invariant
                m <= ks@.len(),
                root == self.root as int,
                self.root == old(self).root,
                spare == old(self).free@,
                is_tree(s, root),
                live(s, id as int),
                ks@ == kids(s, id as int),
                marks@.len() == ks@.len(),
                self.slots@.len() == old(self).slots@.len(),
                dropped_first(s, self.slots@, ks@, marks@, m as int),
                free_ok(self.slots@, self.free@),
                forall|x: NodeId|
                    #![trigger self.free@.contains(x)]
                    self.free@.contains(x) ==> spare.contains(x) || live(s, x as int),
            decreases ks.len() - m,
        {
            let ghost t = self.slots@;
            let ghost spare_t = self.free@;
            if !marks[m] {
                let ghost c = ks@[m as int] as int;
                let ghost pc = at(s, c).path@;
                proof {
                    lemma_other_child_ok(s, t, root, id as int, marks@, m as int, m as int);
                    assert(at(t, c) == at(s, c));
                }
                self.free_subtree(ks[m]);
                proof {
                    assert forall|j: int| #![trigger self.slots@[j]] 0 <= j < s.len() implies self.slots@[j] == (if live(s, j) && below_unmarked(
                        s,
                        ks@,
                        marks@,
                        m + 1,
                        j,
                    ) {
                        None
                    } else {
                        s[j]
                    }) by {
                        lemma_below_unmarked_step(s, ks@, marks@, m as int, j);
                        assert(t[j] == (if live(s, j) && below_unmarked(s, ks@, marks@, m as int, j) {
                            None
                        } else {
                            s[j]
                        }));
                    }
                    assert forall|j: int| #![trigger self.slots@[j]] s.len() <= j < self.slots@.len() implies self.slots@[j] is None by {
                        assert(t[j] is None);
                    }
                    assert forall|x: NodeId| #![trigger self.free@.contains(x)] self.free@.contains(x) implies spare.contains(x) || live(s, x as int) by {
                        if !spare_t.contains(x) {
                            assert(live(t, x as int));
                            assert(t[x as int] is Some);
                        }
                    }
                }
            } else {
                proof {
                    assert forall|j: int| #![trigger t[j]] 0 <= j < s.len() implies t[j] == (if live(s, j) && below_unmarked(s, ks@, marks@, m + 1, j) {
                        None
                    } else {
                        s[j]
                    }) by {
                        lemma_below_unmarked_step(s, ks@, marks@, m as int, j);
                    }
                }
            }
            m += 1;
        }
        proof {
            assert forall|x: NodeId| #![trigger self.free@.contains(x)] self.free@.contains(x) implies spare.contains(x) || (live(s, x as int) && !live(
                self.slots@,
                x as int,
            )) by {
                let k = choose|k: int| 0 <= k < self.free@.len() && self.free@[k] == x;
                assert(self.slots@[self.free@[k] as int] is None);
            }
        }
    }

    /// Puts what the entries describe where the plan says.
    fn fill(&mut self, id: NodeId, plan: &Vec<NodeId>, entries: &Vec<Entry>, Ghost(s): Ghost<Slots>)
        requires
            is_tree(s, old(self).top() as int),
            live(s, id as int),
            live(old(self).slots(), id as int),
            at(old(self).slots(), id as int) == at(s, id as int),
            s.len() <= old(self).slots().len() <= usize::MAX,
            plan@.len() == entries@.len(),
            plan@.no_duplicates(),
            free_ok(old(self).slots(), old(self).spare()),
            forall|k: int|
                #![trigger plan@[k]]
                0 <= k < entries@.len() ==> {
                    &&& planned(s, id as int, entries@[k], plan@[k])
                    &&& plan@[k] < old(self).slots().len()
                    &&& !old(self).spare().contains(plan@[k])
                    &&& if live(s, plan@[k] as int) {
                        old(self).slots()[plan@[k] as int] == s[plan@[k] as int]
                    } else {
                        old(self).slots()[plan@[k] as int] is None
                    }
                },
        ensures
            final(self).top() == old(self).top(),
            final(self).slots().len() == old(self).slots().len(),
            final(self).spare() == old(self).spare(),
            free_ok(final(self).slots(), final(self).spare()),
            forall|k: int|
                #![trigger plan@[k]]
                0 <= k < entries@.len() ==> entry_applied(s, final(self).slots(), id as int, entries@[k], plan@[k]),
            forall|j: int|
                #![trigger final(self).slots()[j]]
                0 <= j < old(self).slots().len() && !plan@.contains(j as usize) ==> final(self).slots()[j] == old(self).slots()[j],
    {
        let ghost root = self.root as int;
        let ghost t = self.slots@;
        let ghost spare = self.free@;
        let path: TreePath = match &self.slots[id] {
            Some(node) => node.path.clone(),
            None => TreePath::Empty,
        };
        let mut i: usize = 0;
        while i < entries.len()
            invariant
                i <= entries@.len(),
                root == self.root as int,
                self.root == old(self).root,
                t == old(self).slots@,
                spare == old(self).free@,
                self.free@ == spare,
                is_tree(s, root),
                live(s, id as int),
                path@ == at(s, id as int).path@,
                s.len() <= t.len() <= usize::MAX,
                plan@.len() == entries@.len(),
                plan@.no_duplicates(),
                free_ok(t, spare),
                forall|k: int|
                    #![trigger plan@[k]]
                    0 <= k < entries@.len() ==> {
                        &&& planned(s, id as int, entries@[k], plan@[k])
                        &&& plan@[k] < t.len()
                        &&& !spare.contains(plan@[k])
                        &&& if live(s, plan@[k] as int) {
                            t[plan@[k] as int] == s[plan@[k] as int]
                        } else {
                            t[plan@[k] as int] is None
                        }
                    },
                self.slots@.len() == t.len(),
                forall|k: int|
                    #![trigger plan@[k]]
                    0 <= k < i ==> entry_applied(s, self.slots@, id as int, entries@[k], plan@[k]),
                forall|j: int|
                    #![trigger self.slots@[j]]
                    0 <= j < t.len() && !plan@.take(i as int).contains(j as usize) ==> self.slots@[j] == t[j],
            decreases entries.len() - i,
        {
            let ghost before = self.slots@;
            let e: &Entry = &entries[i];
            let c: NodeId = plan[i];
            proof {
                assert(planned(s, id as int, entries@[i as int], plan@[i as int]));
                assert(!plan@.take(i as int).contains(c)) by {
                    if plan@.take(i as int).contains(c) {
                        let q = choose|q: int| 0 <= q < i && plan@.take(i as int)[q] == c;
                        assert(plan@[q] == plan@[i as int]);
                    }
                }
                assert(before[c as int] == t[c as int]);
                if keeps(s, id as int, *e, c) {
                    let k = choose|k: int| 0 <= k < kids(s, id as int).len() && kids(s, id as int)[k] == c;
                    assert(live(s, kids(s, id as int)[k] as int));
                }
            }
            let kept: bool = match &self.slots[c] {
                Some(node) => true,
                None => false,
            };
            if kept {
                proof {
                    // An empty slot was never the node of an old child.
                    assert(t[c as int] is Some);
                }
                if let Some(node) = self.slots[c].take() {
                    let Node { name, path: own, parent, kind, symlink, size, expanded, ignored, loaded, omitted, children } = node;
                    self.slots[c] = Some(
                        Node {
                            name,
                            path: own,
                            parent,
                            kind,
                            symlink: e.symlink,
                            size: e.size,
                            expanded,
                            ignored: e.ignored,
                            loaded,
                            omitted,
                            children,
                        },
                    );
                }
            } else {
                let mut name: Vec<u8> = Vec::new();
                name.extend_from_slice(e.name.as_slice());
                assert(name@ =~= e.name@);
                let mut node: Node = Node::new(path.join(name), Some(id), e.kind, e.symlink, e.size);
                node.ignored = e.ignored;
                self.slots[c] = Some(node);
            }
            proof {
                assert(entry_applied(s, self.slots@, id as int, *e, c));
                assert forall|k: int| #![trigger plan@[k]] 0 <= k < i + 1 implies entry_applied(s, self.slots@, id as int, entries@[k], plan@[k]) by {
                    if k < i {
                        assert(plan@[k] != plan@[i as int]);
                        assert(self.slots@[plan@[k] as int] == before[plan@[k] as int]);
                    }
                }
                assert forall|j: int| #![trigger self.slots@[j]] 0 <= j < t.len() && !plan@.take(i + 1).contains(j as usize) implies self.slots@[j] == t[j] by {
                    assert(plan@.take(i + 1)[i as int] == c);
                    if plan@.take(i as int).contains(j as usize) {
                        let q = choose|q: int| 0 <= q < i && plan@.take(i as int)[q] == j as usize;
                        assert(plan@.take(i + 1)[q] == j as usize);
                    }
                    assert(j != c);
                }
            }
            i += 1;
        }
        proof {
            assert(plan@.take(plan@.len() as int) =~= plan@);
            assert forall|k: int| #![trigger self.free@[k]] 0 <= k < self.free@.len() implies self.free@[k] < self.slots@.len()
                && self.slots@[self.free@[k] as int] is None by {
                let x = spare[k];
                assert(spare.contains(x));
                assert(t[x as int] is None);
                if plan@.contains(x) {
                    let q = choose|q: int| 0 <= q < plan@.len() && plan@[q] == x;
                    assert(!spare.contains(plan@[q]));
                }
            }
        }
    }

    /// Makes `entries` the children of `id`. Nodes the listing still describes
    /// stay as they are, so expansion state survives a refresh.
    pub fn reconcile(&mut self, id: NodeId, entries: &Vec<Entry>, omitted: usize)
        requires
            old(self).wf(),
            live(old(self).slots(), id as int),
            at(old(self).slots(), id as int).kind == Kind::Dir || entries@.len() == 0,
            distinct_names(entries@),
        ensures
            final(self).wf(),
            final(self).top() == old(self).top(),
            reconciled(old(self).slots(), final(self).slots(), id as int, entries@, omitted as int),
    {
        let ghost s = self.slots@;
        let ghost root = self.root as int;
        let mut ks: Vec<NodeId> = Vec::new();
        if let Some(node) = &self.slots[id] {
            ks.extend_from_slice(node.children.as_slice());
        }
        assert(ks@ =~= kids(s, id as int));
        let (plan, marks): (Vec<NodeId>, Vec<bool>) = self.plan(id, &ks, entries);
        let ghost t1 = self.slots@;
        let ghost spare1 = self.free@;
        self.drop_unmarked(id, &ks, &marks, Ghost(s));
        let ghost t2 = self.slots@;
        let ghost spare2 = self.free@;
        proof {
            lemma_parent_kept(s, t2, root, id as int, marks@, ks@.len() as int);
            assert forall|k: int| #![trigger plan@[k]] 0 <= k < entries@.len() implies {
                &&& planned(s, id as int, entries@[k], plan@[k])
                &&& plan@[k] < t2.len()
                &&& !spare2.contains(plan@[k])
                &&& if live(s, plan@[k] as int) {
                    t2[plan@[k] as int] == s[plan@[k] as int]
                } else {
                    t2[plan@[k] as int] is None
                }
            } by {
                let c = plan@[k];
                assert(planned(s, id as int, entries@[k], c));
                if live(s, c as int) {
                    assert(keeps(s, id as int, entries@[k], c));
                    let a = choose|a: int| 0 <= a < ks@.len() && ks@[a] == c;
                    assert(marks@[a] == !dropped(s, id as int, entries@, ks@[a]));
                    lemma_other_child_ok(s, t2, root, id as int, marks@, ks@.len() as int, a);
                } else if (c as int) < s.len() {
                    assert(t2[c as int] == s[c as int]);
                }
            }
        }
        self.fill(id, &plan, entries, Ghost(s));
        let ghost t3 = self.slots@;
        proof {
            assert(!plan@.contains(id)) by {
                if plan@.contains(id) {
                    let k = choose|k: int| 0 <= k < plan@.len() && plan@[k] == id;
                    assert(planned(s, id as int, entries@[k], plan@[k]));
                    let a = choose|a: int| 0 <= a < ks@.len() && ks@[a] == id;
                    assert(one_below(at(s, kids(s, id as int)[a] as int).path@, at(s, id as int).path@));
                }
            }
            assert(t3[id as int] == t2[id as int]);
        }
        if let Some(node) = self.slots[id].take() {
            let Node { name, path, parent, kind, symlink, size, expanded, ignored, loaded: _, omitted: _, children: _ } = node;
            self.slots[id] = Some(
                Node {
                    name,
                    path,
                    parent,
                    kind,
                    symlink,
                    size,
                    expanded,
                    ignored,
                    loaded: true,
                    omitted,
                    children: plan,
                },
            );
        }
        proof {
            let t = self.slots@;
            assert forall|j: int| #![trigger t[j]] 0 <= j < t.len() && j != id implies t[j] == t3[j] by {}
            assert forall|k: int| #![trigger kids(t, id as int)[k]] 0 <= k < entries@.len() implies entry_applied(
                s,
                t,
                id as int,
                entries@[k],
                kids(t, id as int)[k],
            ) by {
                let c = plan@[k];
                assert(entry_applied(s, t3, id as int, entries@[k], plan@[k]));
                assert(plan@.contains(c));
                assert(t[c as int] == t3[c as int]);
            }
            assert forall|j: int|
                #![trigger at(t, j)]
                #![trigger live(t, j)]
                live(s, j) && j != id && !kids(t, id as int).contains(j as usize) implies if doomed(s, id as int, entries@, j) {
                !live(t, j)
            } else {
                t[j] == s[j]
            } by {
                assert(t[j] == t3[j]);
                assert(t3[j] == t2[j]);
                assert(t2[j] == (if below_unmarked(s, ks@, marks@, ks@.len() as int, j) {
                    None
                } else {
                    s[j]
                }));
                if doomed(s, id as int, entries@, j) {
                    let c = choose|c: NodeId|
                        #![trigger kids(s, id as int).contains(c)]
                        dropped(s, id as int, entries@, c) && at(s, j).path@.under(at(s, c as int).path@);
                    let a = choose|a: int| 0 <= a < ks@.len() && ks@[a] == c;
                    assert(marks@[a] == !dropped(s, id as int, entries@, ks@[a]));
                    assert(below_unmarked(s, ks@, marks@, ks@.len() as int, j));
                }
                if below_unmarked(s, ks@, marks@, ks@.len() as int, j) {
                    let a = choose|a: int|
                        #![trigger ks@[a]]
                        0 <= a < ks@.len() && !marks@[a] && at(s, j).path@.under(at(s, ks@[a] as int).path@);
                    assert(kids(s, id as int).contains(ks@[a]));
                    assert(doomed(s, id as int, entries@, j));
                }
            }
            assert forall|j: int| #![trigger live(t, j)] live(t, j) implies live(s, j) || kids(t, id as int).contains(j as usize) by {
                if j != id && !kids(t, id as int).contains(j as usize) {
                    assert(t[j] == t3[j]);
                    assert(t3[j] == t2[j]);
                }
            }
            assert(reconciled(s, t, id as int, entries@, omitted as int));
            lemma_reconciled(s, t, root, id as int, entries@, omitted as int);
            assert forall|k: int| #![trigger self.free@[k]] 0 <= k < self.free@.len() implies self.free@[k] < t.len() && t[self.free@[k] as int] is None by {
                assert(t3[self.free@[k] as int] is None);
            }
        }
    }

    /// An arena holding one directory and nothing else.
    pub fn new(root: Node) -> (a: Arena)
        requires
            root.parent is None,
            root.kind == Kind::Dir,
            root.children@.len() == 0,
            !root.expanded,
            root.name@ == root.path@.title(),
        ensures
            a.wf(),
            a.top() == 0,
            a.slots() == seq![Some(root)],
    {
        let mut slots: Vec<Option<Node>> = Vec::new();
        slots.push(Some(root));
        let a = Arena { slots, free: Vec::new(), root: 0 };
        assert(a.slots.len() == 1);
        assert(a.slots@ =~= seq![Some(root)]);
        a
    }

    pub fn root(&self) -> (id: NodeId)
        ensures
            id == self.top(),
    {
        self.root
    }

    /// How many slots there are, in use or not.
    pub fn len(&self) -> (n: usize)
        ensures
            n == self.slots().len(),
    {
        self.slots.len()
    }

    pub fn get(&self, id: NodeId) -> (n: Option<&Node>)
        ensures
            n is Some <==> live(self.slots(), id as int),
            n matches Some(node) ==> *node == at(self.slots(), id as int),
    {
        if id < self.slots.len() {
            self.slots[id].as_ref()
        } else {
            None
        }
    }

    pub fn node(&self, id: NodeId) -> (n: &Node)
        requires
            live(self.slots(), id as int),
        ensures
            *n == at(self.slots(), id as int),
    {
        self.slots[id].as_ref().unwrap()
    }

    /// The node a path names.
    pub fn find(&self, path: &TreePath) -> (r: Option<NodeId>)
        ensures
            r matches Some(id) ==> live(self.slots(), id as int) && at(self.slots(), id as int).path@ == path@,
            r is None ==> forall|i: int| #![trigger at(self.slots(), i)] live(self.slots(), i) ==> at(self.slots(), i).path@ != path@,
    {
        let mut i: usize = 0;
        while i < self.slots.len()
            invariant
                i <= self.slots@.len(),
                forall|j: int| #![trigger at(self.slots@, j)] 0 <= j < i && live(self.slots@, j) ==> at(self.slots@, j).path@ != path@,
            decreases self.slots.len() - i,
        {
            if let Some(node) = &self.slots[i] {
                if node.path.same(path) {
                    return Some(i);
                }
            }
            i += 1;
        }
        None
    }

    /// Opens or shuts a directory.
    pub fn set_expanded(&mut self, id: NodeId, expanded: bool)
        requires
            old(self).wf(),
            live(old(self).slots(), id as int),
            expanded ==> at(old(self).slots(), id as int).kind == Kind::Dir && at(old(self).slots(), id as int).loaded,
        ensures
            final(self).wf(),
            final(self).top() == old(self).top(),
            final(self).slots() == old(self).slots().update(
                id as int,
                Some((Node { expanded, ..at(old(self).slots(), id as int) })),
            ),
    {
        let ghost s = self.slots@;
        if let Some(node) = self.slots[id].take() {
            let Node { name, path, parent, kind, symlink, size, expanded: _, ignored, loaded, omitted, children } = node;
            self.slots[id] = Some(
                Node { name, path, parent, kind, symlink, size, expanded, ignored, loaded, omitted, children },
            );
        }
        proof {
            assert(self.slots@ =~= s.update(id as int, Some((Node { expanded, ..at(s, id as int) }))));
            lemma_reshut(s, self.slots@, self.root as int);
            lemma_reshut_free(s, self.slots@, self.free@);
        }
    }

    /// Shuts every directory.
    pub fn collapse_every(&mut self)
        requires
            old(self).wf(),
        ensures
            final(self).wf(),
            final(self).top() == old(self).top(),
            final(self).slots() == all_shut(old(self).slots()),
    {
        let ghost s = self.slots@;
        let mut i: usize = 0;
        while i < self.slots.len()
            invariant
                i <= self.slots@.len(),
                s == old(self).slots@,
                self.slots@.len() == s.len(),
                self.root == old(self).root,
                self.free@ == old(self).free@,
                forall|j: int|
                    #![trigger self.slots@[j]]
                    0 <= j < s.len() ==> self.slots@[j] == (if j < i {
                        shut(s[j])
                    } else {
                        s[j]
                    }),
            decreases self.slots.len() - i,
        {
            let ghost before = self.slots@;
            if let Some(node) = self.slots[i].take() {
                let Node { name, path, parent, kind, symlink, size, expanded: _, ignored, loaded, omitted, children } = node;
                self.slots[i] = Some(
                    Node { name, path, parent, kind, symlink, size, expanded: false, ignored, loaded, omitted, children },
                );
            }
            assert(self.slots@ =~= before.update(i as int, shut(s[i as int])));
            i += 1;
        }
        proof {
            assert(self.slots@ =~= all_shut(s));
            lemma_reshut(s, self.slots@, self.root as int);
            lemma_reshut_free(s, self.slots@, self.free@);
        }
    }

    /// Whether a listing says something of `id` that its rows do not show yet.
    pub fn differs(&self, id: NodeId, entries: &Vec<Entry>, omitted: usize) -> (r: bool)
        requires
            self.wf(),
            live(self.slots(), id as int),
        ensures
            r == !({
                &&& at(self.slots(), id as int).loaded
                &&& at(self.slots(), id as int).omitted == omitted
                &&& listing_agrees(self.slots(), id as int, entries@)
            }),
    {
        let ghost s = self.slots@;
        let node: &Node = self.node(id);
        if !node.loaded || node.omitted != omitted || node.children.len() != entries.len() {
            return true;
        }
        let mut i: usize = 0;
        while i < entries.len()
            invariant
                i <= entries@.len(),
                s == self.slots@,
                self.wf(),
                live(s, id as int),
                *node == at(s, id as int),
                node.children@.len() == entries@.len(),
                forall|k: int|
                    #![trigger entries@[k]]
                    0 <= k < i ==> reads_alike(at(s, kids(s, id as int)[k] as int), entries@[k]),
            decreases entries.len() - i,
        {
            let e: &Entry = &entries[i];
            assert(one_below(at(s, kids(s, id as int)[i as int] as int).path@, at(s, id as int).path@));
            let child: &Node = self.node(node.children[i]);
            let same: bool = self.is_described(node.children[i], e);
            if !same || child.symlink != e.symlink || child.ignored != e.ignored {
                assert(!reads_alike(at(s, kids(s, id as int)[i as int] as int), entries@[i as int]));
                return true;
            }
            i += 1;
        }
        false
    }
}

} // verus!
