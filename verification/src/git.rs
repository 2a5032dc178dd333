//! What git would ignore, asked of git.
//!
//! treex does not read `.gitignore` files. Ignore rules are not a glob list:
//! they nest, they negate, later rules override earlier ones, and the answer
//! also depends on `core.excludesFile`, `.git/info/exclude` and whether the
//! path is already tracked. `git check-ignore` knows all of that and is on
//! every machine that has a repository worth looking at.
//!
//! One call answers a whole directory. It runs with that directory as its
//! working directory, so git discovers the repository itself: a folder holding
//! a dozen unrelated checkouts works with no extra bookkeeping, and a directory
//! in no repository simply reports nothing.

use vstd::prelude::*;

use crate::text::{split_bytes, split_on, starts_with, views};

verus! {

/// What `git --version` starts with.
pub open spec fn version_banner() -> Seq<u8> {
    // "git version"
    seq![103u8, 105u8, 116u8, 32u8, 118u8, 101u8, 114u8, 115u8, 105u8, 111u8, 110u8]
}

/// Whether dimming is possible at all here, i.e. whether what answered
/// `git --version` was git.
pub fn available(success: bool, stdout: &[u8]) -> (r: bool)
    ensures
        r == (success && version_banner().is_prefix_of(stdout@)),
{
    let banner: [u8; 11] = [103, 105, 116, 32, 118, 101, 114, 115, 105, 111, 110];
    assert(banner@ =~= version_banner());
    success && starts_with(stdout, &banner)
}

/// What git is sent: every name, each followed by a NUL, so a file called
/// `a b#c` or one in Chinese is no different from any other.
pub open spec fn framed(names: Seq<Seq<u8>>) -> Seq<u8>
    decreases names.len(),
{
    if names.len() == 0 {
        Seq::empty()
    } else {
        (framed(names.drop_last()) + names.last()).push(0u8)
    }
}

/// The pieces with anything in them.
pub open spec fn nonempty(parts: Seq<Seq<u8>>) -> Seq<Seq<u8>>
    decreases parts.len(),
{
    if parts.len() == 0 {
        Seq::empty()
    } else if parts.last().len() > 0 {
        nonempty(parts.drop_last()).push(parts.last())
    } else {
        nonempty(parts.drop_last())
    }
}

/// What a run of `git check-ignore` came back with.
pub struct Reply {
    /// Its exit code, or `None` where something else ended it.
    pub code: Option<i32>,
    pub out: Vec<u8>,
}

/// The names a reply holds. 0 means something is ignored and 1 that nothing is;
/// anything else (128: not a repository) means there is no answer rather than
/// an empty one.
pub open spec fn answered(code: Option<i32>, out: Seq<u8>) -> Option<Seq<Seq<u8>>> {
    if code == Some(0i32) || code == Some(1i32) {
        Some(nonempty(split_on(out, 0)))
    } else {
        None
    }
}

/// Writes out the question.
pub fn question(names: &Vec<Vec<u8>>) -> (q: Vec<u8>)
    ensures
        q@ == framed(views(names@)),
{
    let ghost all = views(names@);
    let mut q: Vec<u8> = Vec::new();
    let mut i: usize = 0;
    assert(all.take(0) =~= Seq::<Seq<u8>>::empty());
    while i < names.len()
        invariant
            i <= names@.len(),
            all == views(names@),
            q@ == framed(all.take(i as int)),
        decreases names.len() - i,
    {
        proof {
            assert(all.take(i + 1).drop_last() =~= all.take(i as int));
            assert(all.take(i + 1).last() == names@[i as int]@);
        }
        let ghost before = q@;
        q.extend_from_slice(names[i].as_slice());
        assert(q@ =~= before + names@[i as int]@);
        q.push(0);
        i += 1;
    }
    assert(all.take(all.len() as int) =~= all);
    q
}

/// Reads the names out of a reply.
pub fn answer(reply: &Reply) -> (r: Option<Vec<Vec<u8>>>)
    ensures
        match r {
            Some(names) => answered(reply.code, reply.out@) == Some(views(names@)),
            None => answered(reply.code, reply.out@) is None,
        },
{
    match reply.code {
        Some(0) | Some(1) => {}
        _ => {
            return None;
        }
    }
    let parts: Vec<Vec<u8>> = split_bytes(reply.out.as_slice(), 0);
    let ghost all = views(parts@);
    let mut names: Vec<Vec<u8>> = Vec::new();
    let mut i: usize = 0;
    assert(all.take(0) =~= Seq::<Seq<u8>>::empty());
    assert(views(names@) =~= Seq::<Seq<u8>>::empty());
    while i < parts.len()
        invariant
            i <= parts@.len(),
            all == views(parts@),
            views(names@) == nonempty(all.take(i as int)),
        decreases parts.len() - i,
    {
        proof {
            assert(all.take(i + 1).drop_last() =~= all.take(i as int));
            assert(all.take(i + 1).last() == parts@[i as int]@);
        }
        if parts[i].len() > 0 {
            let mut name: Vec<u8> = Vec::new();
            name.extend_from_slice(parts[i].as_slice());
            assert(name@ =~= parts@[i as int]@);
            let ghost before = names@;
            names.push(name);
            assert(views(names@) =~= views(before).push(name@));
        }
        i += 1;
    }
    assert(all.take(all.len() as int) =~= all);
    Some(names)
}

/// Whether there is anything to run git for.
pub fn worth_asking(git: bool, names: &Vec<Vec<u8>>) -> (r: bool)
    ensures
        r == (git && names@.len() > 0),
{
    git && names.len() > 0
}

/// What git said of some names, where it was asked and had an answer.
pub open spec fn said_of(git: bool, names: Seq<Seq<u8>>, reply: Option<Reply>) -> Option<Seq<Seq<u8>>> {
    match reply {
        Some(reply) if git && names.len() > 0 => answered(reply.code, reply.out@),
        _ => None,
    }
}

/// What git said of `names`, entries of one directory.
///
/// Nothing when there is no git, when the directory is in no repository, or when
/// git was asked about nothing.
pub fn consulted(git: bool, names: &Vec<Vec<u8>>, reply: Option<Reply>) -> (r: Option<Vec<Vec<u8>>>)
    ensures
        match r {
            Some(said) => said_of(git, views(names@), reply) == Some(views(said@)),
            None => said_of(git, views(names@), reply) is None,
        },
{
    if !worth_asking(git, names) {
        return None;
    }
    match reply {
        Some(reply) => answer(&reply),
        None => None,
    }
}

/// Which of `names`, entries of one directory, git would ignore, with what it
/// replied.
///
/// Empty when there is no git, when the directory is in no repository, when git
/// had nothing to say, or when it was asked about nothing.
pub fn ignored(git: bool, names: &Vec<Vec<u8>>, reply: Option<Reply>) -> (set: Vec<Vec<u8>>)
    ensures
        views(set@) == (match said_of(git, views(names@), reply) {
            Some(said) => said,
            None => Seq::empty(),
        }),
{
    match consulted(git, names, reply) {
        Some(said) => said,
        None => {
            let set: Vec<Vec<u8>> = Vec::new();
            assert(views(set@) =~= Seq::<Seq<u8>>::empty());
            set
        }
    }
}

/// Names come back out of the framing exactly as they went in, whatever is in
/// them, as long as each is a name: not empty, and without a NUL.
pub proof fn lemma_names_survive_framing(names: Seq<Seq<u8>>)
    requires
        forall|k: int| #![trigger names[k]] 0 <= k < names.len() ==> names[k].len() > 0 && !names[k].contains(0u8),
    ensures
        answered(Some(0i32), framed(names)) == Some(names),
{
    lemma_framed_splits(names);
    let parts = names.push(Seq::<u8>::empty());
    assert(parts.drop_last() =~= names);
    lemma_all_nonempty(names);
}

proof fn lemma_framed_splits(names: Seq<Seq<u8>>)
    requires
        forall|k: int| #![trigger names[k]] 0 <= k < names.len() ==> names[k].len() > 0 && !names[k].contains(0u8),
    ensures
        split_on(framed(names), 0) == names.push(Seq::<u8>::empty()),
    decreases names.len(),
{
    if names.len() == 0 {
        assert(names.push(Seq::<u8>::empty()) =~= seq![Seq::<u8>::empty()]);
    } else {
        let front = names.drop_last();
        let last = names.last();
        assert(last == names[names.len() - 1]);
        assert forall|k: int| #![trigger front[k]] 0 <= k < front.len() implies front[k].len() > 0 && !front[k].contains(0u8) by {
            assert(front[k] == names[k]);
        }
        lemma_framed_splits(front);
        let body = framed(front) + last;
        assert(body.push(0u8).drop_last() =~= body);
        lemma_split_last(framed(front), last);
        let parts = split_on(body, 0);
        assert(parts =~= names);
    }
}

/// Text without a NUL after text that ends in one, or after nothing, is a piece
/// of its own.
proof fn lemma_split_last(a: Seq<u8>, n: Seq<u8>)
    requires
        split_on(a, 0).len() > 0,
        split_on(a, 0).last().len() == 0,
        !n.contains(0u8),
    ensures
        split_on(a + n, 0) == split_on(a, 0).drop_last().push(n),
    decreases n.len(),
{
    let front = split_on(a, 0).drop_last();
    if n.len() == 0 {
        assert(a + n =~= a);
        assert(n =~= split_on(a, 0).last());
        assert(front.push(n) =~= split_on(a, 0));
    } else {
        let m = n.drop_last();
        assert(m.contains(0u8) ==> n.contains(0u8)) by {
            if m.contains(0u8) {
                let i = choose|i: int| 0 <= i < m.len() && m[i] == 0u8;
                assert(n[i] == 0u8);
            }
        }
        lemma_split_last(a, m);
        assert((a + n).drop_last() =~= a + m);
        assert(n.last() == n[n.len() - 1]);
        assert((a + n).last() == n.last());
        let before = front.push(m);
        assert(before.drop_last() =~= front);
        assert(before.last() == m);
        assert(m.push(n.last()) =~= n);
    }
}

proof fn lemma_all_nonempty(names: Seq<Seq<u8>>)
    requires
        forall|k: int| #![trigger names[k]] 0 <= k < names.len() ==> names[k].len() > 0,
    ensures
        nonempty(names) == names,
    decreases names.len(),
{
    if names.len() > 0 {
        let front = names.drop_last();
        assert forall|k: int| #![trigger front[k]] 0 <= k < front.len() implies front[k].len() > 0 by {
            assert(front[k] == names[k]);
        }
        lemma_all_nonempty(front);
        assert(names.last() == names[names.len() - 1]);
        assert(front.push(names.last()) =~= names);
    } else {
        assert(names =~= Seq::<Seq<u8>>::empty());
    }
}

/// git has answered where it exits with 0 or 1 and in no other way, and which of
/// the two makes no difference to the names. Every name in a reply is one piece
/// of it between NULs, and none is empty.
pub proof fn lemma_what_counts_as_an_answer(code: Option<i32>, out: Seq<u8>)
    ensures
        answered(code, out) is Some <==> code == Some(0i32) || code == Some(1i32),
        answered(Some(1i32), out) == answered(Some(0i32), out),
        answered(code, out) matches Some(names) ==> {
            &&& forall|n: Seq<u8>| #![trigger names.contains(n)] names.contains(n) <==> n.len() > 0 && split_on(out, 0).contains(n)
        },
{
    lemma_nonempty_holds(split_on(out, 0));
}

proof fn lemma_nonempty_holds(parts: Seq<Seq<u8>>)
    ensures
        forall|n: Seq<u8>| #![trigger nonempty(parts).contains(n)] nonempty(parts).contains(n) <==> n.len() > 0 && parts.contains(n),
    decreases parts.len(),
{
    if parts.len() > 0 {
        let front = parts.drop_last();
        lemma_nonempty_holds(front);
        let kept = nonempty(front);
        let all = nonempty(parts);
        assert forall|n: Seq<u8>| #![trigger all.contains(n)] all.contains(n) <==> n.len() > 0 && parts.contains(n) by {
            if all.contains(n) {
                let k = choose|k: int| 0 <= k < all.len() && all[k] == n;
                if k < kept.len() {
                    assert(kept[k] == n);
                    assert(nonempty(front).contains(n));
                    let j = choose|j: int| 0 <= j < front.len() && front[j] == n;
                    assert(parts[j] == n);
                } else {
                    assert(parts[parts.len() - 1] == n);
                }
            }
            if n.len() > 0 && parts.contains(n) {
                let k = choose|k: int| 0 <= k < parts.len() && parts[k] == n;
                if k < front.len() {
                    assert(front[k] == n);
                    assert(front.contains(n));
                    assert(nonempty(front).contains(n));
                    let j = choose|j: int| 0 <= j < kept.len() && kept[j] == n;
                    assert(all[j] == n);
                } else {
                    assert(all[all.len() - 1] == n);
                }
            }
        }
    }
}

/// git counts for something only where there is one, where it was asked, and
/// where it answered.
pub proof fn lemma_when_git_has_a_say(git: bool, names: Seq<Seq<u8>>, reply: Option<Reply>)
    ensures
        said_of(git, names, reply) is Some <==> git && names.len() > 0 && (reply matches Some(r) && (r.code == Some(0i32) || r.code
            == Some(1i32))),
        git && names.len() > 0 && (forall|k: int| #![trigger names[k]] 0 <= k < names.len() ==> names[k].len() > 0 && !names[k].contains(0u8))
            && (reply matches Some(r) && r.code == Some(0i32) && r.out@ == framed(names)) ==> said_of(git, names, reply) == Some(
            names,
        ),
{
    if git && (forall|k: int| #![trigger names[k]] 0 <= k < names.len() ==> names[k].len() > 0 && !names[k].contains(0u8)) {
        lemma_names_survive_framing(names);
    }
}

} // verus!
