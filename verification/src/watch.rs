//! Filesystem watching: what a batch of events means for the tree, and which
//! directories to watch.
//!
//! Only the directories currently drawn on screen are watched, and only one
//! level deep each. Watching the root recursively would cost thousands of
//! inotify descriptors on a checkout with a `target/` in it, to deliver events
//! that every view then discards.

use vstd::prelude::*;

use crate::path::{PathView, TreePath};
use crate::tree::path_views;

verus! {

/// One path out of an event.
pub struct Touched {
    pub path: TreePath,
    /// Whether it is a directory on disk.
    pub is_dir: bool,
    /// Whether all that happened is that it was read.
    pub read: bool,
}

/// `.gitignore`.
pub open spec fn rule_file() -> Seq<u8> {
    seq![46u8, 103u8, 105u8, 116u8, 105u8, 103u8, 110u8, 111u8, 114u8, 101u8]
}

/// Whether an event rewrote the rules for everything below a directory. Reading
/// a rule file is an event too, and is not that.
pub open spec fn changes_rules(t: Touched) -> bool {
    !t.read && t.path@.names.len() > 0 && t.path@.names.last() == rule_file()
}

/// The directory whose listing a path belongs to: itself where it is one, else
/// the one it is in.
pub open spec fn listing_dir(t: Touched) -> PathView {
    if t.is_dir || t.path@.names.len() == 0 {
        t.path@
    } else {
        t.path@.up()
    }
}

/// A path added to a list unless it is there already.
pub open spec fn noted(list: Seq<PathView>, p: PathView) -> Seq<PathView> {
    if list.contains(p) {
        list
    } else {
        list.push(p)
    }
}

/// The directories whose listing a batch may have altered, each once, in the
/// order they first come up.
pub open spec fn listings(batch: Seq<Touched>) -> Seq<PathView>
    decreases batch.len(),
{
    if batch.len() == 0 {
        Seq::empty()
    } else if changes_rules(batch.last()) {
        listings(batch.drop_last())
    } else {
        noted(listings(batch.drop_last()), listing_dir(batch.last()))
    }
}

/// The directories whose rule file a batch rewrote, each once, in the order
/// they first come up.
pub open spec fn rule_dirs(batch: Seq<Touched>) -> Seq<PathView>
    decreases batch.len(),
{
    if batch.len() == 0 {
        Seq::empty()
    } else if changes_rules(batch.last()) {
        noted(rule_dirs(batch.drop_last()), batch.last().path@.up())
    } else {
        rule_dirs(batch.drop_last())
    }
}

/// What there is to do about a batch of events.
pub struct Affected {
    /// Directories to re-read.
    pub listings: Vec<TreePath>,
    /// Directories to re-read with everything loaded beneath them.
    pub rules: Vec<TreePath>,
}

/// Whether a list holds a path.
pub fn holds(list: &Vec<TreePath>, p: &TreePath) -> (r: bool)
    ensures
        r == path_views(list@).contains(p@),
{
    let mut i: usize = 0;
    while i < list.len()
        invariant
            i <= list@.len(),
            forall|k: int| 0 <= k < i ==> #[trigger] list@[k]@ != p@,
        decreases list.len() - i,
    {
        if list[i].same(p) {
            assert(path_views(list@)[i as int] == p@);
            return true;
        }
        i += 1;
    }
    proof {
        if path_views(list@).contains(p@) {
            let k = choose|k: int| 0 <= k < path_views(list@).len() && path_views(list@)[k] == p@;
            assert(list@[k]@ == p@);
        }
    }
    false
}

fn note(list: &mut Vec<TreePath>, p: TreePath)
    ensures
        path_views(final(list)@) == noted(path_views(old(list)@), p@),
{
    if !holds(list, &p) {
        let ghost before = list@;
        list.push(p);
        assert(path_views(list@) =~= path_views(before).push(p@));
    }
}

fn is_rule_file(p: &TreePath) -> (r: bool)
    ensures
        r == (p@.names.len() > 0 && p@.names.last() == rule_file()),
{
    match p.last_name() {
        Some(n) => {
            let r: bool = n.len() == 10 && n[0] == 46 && n[1] == 103 && n[2] == 105 && n[3] == 116 && n[4] == 105 && n[5] == 103
                && n[6] == 110 && n[7] == 111 && n[8] == 114 && n[9] == 101;
            assert(r == (n@ =~= rule_file()));
            r
        }
        None => false,
    }
}

/// Sorts a batch of events into what there is to re-read.
///
/// One refresh per affected directory, not per event: a `cargo build` can
/// produce thousands of events touching a handful of directories.
pub fn affected(batch: &Vec<Touched>) -> (a: Affected)
    ensures
        path_views(a.listings@) == listings(batch@),
        path_views(a.rules@) == rule_dirs(batch@),
{
    let mut dirs: Vec<TreePath> = Vec::new();
    let mut rules: Vec<TreePath> = Vec::new();
    let mut i: usize = 0;
    assert(batch@.take(0) =~= Seq::<Touched>::empty());
    assert(path_views(dirs@) =~= Seq::<PathView>::empty());
    while i < batch.len()
        invariant
            i <= batch@.len(),
            path_views(dirs@) == listings(batch@.take(i as int)),
            path_views(rules@) == rule_dirs(batch@.take(i as int)),
        decreases batch.len() - i,
    {
        proof {
            assert(batch@.take(i + 1).drop_last() =~= batch@.take(i as int));
            assert(batch@.take(i + 1).last() == batch@[i as int]);
        }
        let t: &Touched = &batch[i];
        let up: TreePath = match t.path.parent() {
            Some(parent) => parent,
            None => t.path.clone(),
        };
        if !t.read && is_rule_file(&t.path) {
            note(&mut rules, up);
        } else if t.is_dir {
            note(&mut dirs, t.path.clone());
        } else {
            note(&mut dirs, up);
        }
        i += 1;
    }
    assert(batch@.take(batch@.len() as int) =~= batch@);
    Affected { listings: dirs, rules }
}

/// The paths of one list that another does not hold, in order.
pub open spec fn without(list: Seq<PathView>, other: Seq<PathView>) -> Seq<PathView>
    decreases list.len(),
{
    if list.len() == 0 {
        Seq::empty()
    } else if other.contains(list.last()) {
        without(list.drop_last(), other)
    } else {
        without(list.drop_last(), other).push(list.last())
    }
}

/// The paths of one list that another does not hold. What is drawn and not
/// watched is to be watched; what is watched and no longer drawn is not.
pub fn difference(list: &Vec<TreePath>, other: &Vec<TreePath>) -> (r: Vec<TreePath>)
    ensures
        path_views(r@) == without(path_views(list@), path_views(other@)),
{
    let ghost all = path_views(list@);
    let mut r: Vec<TreePath> = Vec::new();
    let mut i: usize = 0;
    assert(all.take(0) =~= Seq::<PathView>::empty());
    assert(path_views(r@) =~= Seq::<PathView>::empty());
    while i < list.len()
        invariant
            i <= list@.len(),
            all == path_views(list@),
            path_views(r@) == without(all.take(i as int), path_views(other@)),
        decreases list.len() - i,
    {
        proof {
            assert(all.take(i + 1).drop_last() =~= all.take(i as int));
            assert(all.take(i + 1).last() == list@[i as int]@);
        }
        if !holds(other, &list[i]) {
            let ghost before = r@;
            r.push(list[i].clone());
            assert(path_views(r@) =~= path_views(before).push(list@[i as int]@));
        }
        i += 1;
    }
    assert(all.take(all.len() as int) =~= all);
    r
}

/// Watching what is new and letting go of what is not wanted any more leaves
/// exactly the wanted directories watched.
pub proof fn lemma_watches_follow(watched: Seq<PathView>, wanted: Seq<PathView>, p: PathView)
    ensures
        wanted.contains(p) <==> (watched.contains(p) && !without(watched, wanted).contains(p)) || without(
            wanted,
            watched,
        ).contains(p),
{
    lemma_without(watched, wanted, p);
    lemma_without(wanted, watched, p);
}

proof fn lemma_without(list: Seq<PathView>, other: Seq<PathView>, p: PathView)
    ensures
        without(list, other).contains(p) <==> list.contains(p) && !other.contains(p),
    decreases list.len(),
{
    if list.len() > 0 {
        let front = list.drop_last();
        lemma_without(front, other, p);
        lemma_push_holds(front, list.last(), p);
        assert(front.push(list.last()) =~= list);
        lemma_push_holds(without(front, other), list.last(), p);
    }
}

proof fn lemma_push_holds(s: Seq<PathView>, x: PathView, p: PathView)
    ensures
        s.push(x).contains(p) <==> s.contains(p) || p == x,
{
    if s.contains(p) {
        let k = choose|k: int| 0 <= k < s.len() && s[k] == p;
        assert(s.push(x)[k] == p);
    }
    assert(s.push(x)[s.len() as int] == x);
}

// -- laws -----------------------------------------------------------------

/// A batch of events comes to a reading of every directory that one of them is
/// about, each once: the directory itself where that is what was touched, and
/// otherwise the one that holds what was. A rewritten rule file comes to a
/// reading of everything below its directory instead, and reading one to
/// nothing of the kind.
pub proof fn lemma_each_directory_is_read_once(batch: Seq<Touched>)
    ensures
        listings(batch).no_duplicates(),
        rule_dirs(batch).no_duplicates(),
        forall|p: PathView|
            #![trigger listings(batch).contains(p)]
            listings(batch).contains(p) <==> exists|k: int|
                0 <= k < batch.len() && !changes_rules(#[trigger] batch[k]) && listing_dir(batch[k]) == p,
        forall|p: PathView|
            #![trigger rule_dirs(batch).contains(p)]
            rule_dirs(batch).contains(p) <==> exists|k: int|
                0 <= k < batch.len() && changes_rules(#[trigger] batch[k]) && batch[k].path@.up() == p,
    decreases batch.len(),
{
    if batch.len() > 0 {
        let front = batch.drop_last();
        let t = batch.last();
        lemma_each_directory_is_read_once(front);
        lemma_noted_once(listings(front), listing_dir(t));
        lemma_noted_once(rule_dirs(front), t.path@.up());
        assert(batch[batch.len() - 1] == t);
        assert forall|p: PathView|
            #![trigger listings(batch).contains(p)]
            listings(batch).contains(p) <==> exists|k: int|
                0 <= k < batch.len() && !changes_rules(#[trigger] batch[k]) && listing_dir(batch[k]) == p by {
            if exists|k: int| 0 <= k < batch.len() && !changes_rules(#[trigger] batch[k]) && listing_dir(batch[k]) == p {
                let k = choose|k: int| 0 <= k < batch.len() && !changes_rules(#[trigger] batch[k]) && listing_dir(batch[k]) == p;
                if k < front.len() {
                    assert(front[k] == batch[k]);
                }
            }
            if listings(front).contains(p) {
                let k = choose|k: int| 0 <= k < front.len() && !changes_rules(#[trigger] front[k]) && listing_dir(front[k]) == p;
                assert(batch[k] == front[k]);
            }
        }
        assert forall|p: PathView|
            #![trigger rule_dirs(batch).contains(p)]
            rule_dirs(batch).contains(p) <==> exists|k: int|
                0 <= k < batch.len() && changes_rules(#[trigger] batch[k]) && batch[k].path@.up() == p by {
            if exists|k: int| 0 <= k < batch.len() && changes_rules(#[trigger] batch[k]) && batch[k].path@.up() == p {
                let k = choose|k: int| 0 <= k < batch.len() && changes_rules(#[trigger] batch[k]) && batch[k].path@.up() == p;
                if k < front.len() {
                    assert(front[k] == batch[k]);
                }
            }
            if rule_dirs(front).contains(p) {
                let k = choose|k: int| 0 <= k < front.len() && changes_rules(#[trigger] front[k]) && front[k].path@.up() == p;
                assert(batch[k] == front[k]);
            }
        }
    }
}

proof fn lemma_noted_once(list: Seq<PathView>, p: PathView)
    requires
        list.no_duplicates(),
    ensures
        noted(list, p).no_duplicates(),
        forall|q: PathView| #![trigger noted(list, p).contains(q)] noted(list, p).contains(q) <==> list.contains(q) || q == p,
{
    assert forall|q: PathView| #![trigger noted(list, p).contains(q)] noted(list, p).contains(q) <==> list.contains(q) || q == p by {
        lemma_push_holds(list, p, q);
    }
    if !list.contains(p) {
        let all = list.push(p);
        assert forall|a: int, b: int| 0 <= a < all.len() && 0 <= b < all.len() && a != b implies all[a] != all[b] by {
            assert(a < list.len() ==> list.contains(list[a]));
            assert(b < list.len() ==> list.contains(list[b]));
        }
    }
}

/// The rules change where a file called `.gitignore` was touched otherwise than
/// by being read. What was touched is listed by the directory it is in, or by
/// itself where it is a directory.
pub proof fn lemma_what_an_event_is_about(t: Touched, name: Seq<u8>)
    requires
        t.path@.names.len() > 0,
        name == t.path@.names[t.path@.names.len() - 1],
    ensures
        changes_rules(t) <==> !t.read && name == ".gitignore"@.map_values(|c: char| c as u8),
        t.is_dir ==> listing_dir(t) == t.path@,
        !t.is_dir ==> listing_dir(t).child(name) == t.path@,
{
    reveal_strlit(".gitignore");
    assert(".gitignore"@.map_values(|c: char| c as u8) =~= rule_file());
    assert(t.path@.names =~= t.path@.names.drop_last().push(name));
}

/// What is left of a list is what another lacks of it.
pub proof fn lemma_what_another_list_lacks(list: Seq<PathView>, other: Seq<PathView>, p: PathView)
    ensures
        without(list, other).contains(p) <==> list.contains(p) && !other.contains(p),
{
    lemma_without(list, other, p);
}

} // verus!
