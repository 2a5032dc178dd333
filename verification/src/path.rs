//! Paths as the tree reads them: a starting point and the names below it.

use std::sync::Arc;

use vstd::prelude::*;

use crate::text::{
    lemma_split_append, lemma_split_joined, lemma_split_nonempty, lemma_split_single, lossy, text_of, same_bytes, split_bytes,
    split_on, views,
};

verus! {

/// `/`.
pub const SLASH: u8 = 47;

/// `.`.
pub const DOT: u8 = 46;


/// What a path is: where it starts, and the names from there down.
pub struct PathView {
    pub absolute: bool,
    pub names: Seq<Seq<u8>>,
}

impl PathView {
    /// The entry called `name` in the directory this path names.
    pub open spec fn child(self, name: Seq<u8>) -> PathView {
        PathView { absolute: self.absolute, names: self.names.push(name) }
    }

    /// Whether this path is `base` or lies somewhere below it.
    pub open spec fn under(self, base: PathView) -> bool {
        self.absolute == base.absolute && base.names.is_prefix_of(self.names)
    }

    /// The directory this path is in. Meaningless where there are no names.
    pub open spec fn up(self) -> PathView {
        PathView { absolute: self.absolute, names: self.names.drop_last() }
    }

    /// The path written out, names joined by slashes.
    pub open spec fn text(self) -> Seq<u8>
        decreases self.names.len(),
    {
        if self.names.len() == 0 {
            if self.absolute {
                seq![SLASH]
            } else {
                Seq::empty()
            }
        } else if self.names.len() == 1 {
            self.up().text() + self.names.last()
        } else {
            self.up().text().push(SLASH) + self.names.last()
        }
    }

    /// A path whose names could each come out of a directory listing. The one
    /// exception is `.` where a relative path starts.
    pub open spec fn sound(self) -> bool {
        forall|i: int|
            #![trigger self.names[i]]
            0 <= i < self.names.len() ==> sound_name(self.names[i], i == 0 && !self.absolute)
    }

    /// The last name, where it is a name of its own and not `.` or `..`.
    pub open spec fn file_name(self) -> Option<Seq<u8>> {
        if self.names.len() > 0 && self.names.last() != seq![DOT] && self.names.last() != seq![DOT, DOT] {
            Some(self.names.last())
        } else {
            None
        }
    }

    /// What a row calls this path: its last name, or all of it where it has
    /// none.
    pub open spec fn title(self) -> Seq<char> {
        match self.file_name() {
            Some(name) => text_of(name),
            None => text_of(self.text()),
        }
    }
}

/// A name one step of a path can have.
pub open spec fn sound_name(name: Seq<u8>, first: bool) -> bool {
    name.len() > 0 && !name.contains(SLASH) && (name != seq![DOT] || first)
}

/// Whether the piece at position `i` between slashes is a name. Repeated
/// slashes leave empty pieces, and `.` only says anything where a relative path
/// starts.
pub open spec fn names_something(part: Seq<u8>, i: int) -> bool {
    part.len() > 0 && (part != seq![DOT] || i == 0)
}

/// The pieces that are names.
pub open spec fn named_parts(parts: Seq<Seq<u8>>) -> Seq<Seq<u8>>
    decreases parts.len(),
{
    if parts.len() == 0 {
        Seq::empty()
    } else {
        let before = named_parts(parts.drop_last());
        if names_something(parts.last(), parts.len() - 1) {
            before.push(parts.last())
        } else {
            before
        }
    }
}

/// The path some bytes spell.
pub open spec fn path_of(bytes: Seq<u8>) -> PathView {
    PathView {
        absolute: bytes.len() > 0 && bytes[0] == SLASH,
        names: named_parts(split_on(bytes, SLASH)),
    }
}

/// A path, sharing everything above its last name with the paths beside it.
#[derive(Debug, PartialEq, Eq)]
pub enum TreePath {
    /// `/`.
    Root,
    /// The start of a relative path.
    Empty,
    Under(Arc<Step>),
}

/// One name below another path.
#[derive(Debug, PartialEq, Eq)]
pub struct Step {
    pub parent: TreePath,
    pub name: Vec<u8>,
}

impl TreePath {
    pub open spec fn is_absolute(&self) -> bool
        decreases self,
    {
        match self {
            TreePath::Root => true,
            TreePath::Empty => false,
            TreePath::Under(step) => step.parent.is_absolute(),
        }
    }

    pub open spec fn names(&self) -> Seq<Seq<u8>>
        decreases self,
    {
        match self {
            TreePath::Root => Seq::empty(),
            TreePath::Empty => Seq::empty(),
            TreePath::Under(step) => step.parent.names().push(step.name@),
        }
    }
}

impl View for TreePath {
    type V = PathView;

    open spec fn view(&self) -> PathView {
        PathView { absolute: self.is_absolute(), names: self.names() }
    }
}

impl Clone for TreePath {
    /// Another handle on the same path.
    fn clone(&self) -> (p: TreePath)
        ensures
            p@ == self@,
    {
        match self {
            TreePath::Root => TreePath::Root,
            TreePath::Empty => TreePath::Empty,
            TreePath::Under(step) => TreePath::Under(step.clone()),
        }
    }
}

impl TreePath {
    /// The entry called `name` in the directory this path names.
    pub fn join(&self, name: Vec<u8>) -> (p: TreePath)
        ensures
            p@ == self@.child(name@),
    {
        TreePath::Under(Arc::new(Step { parent: self.clone(), name }))
    }

    pub fn parent(&self) -> (p: Option<TreePath>)
        ensures
            p is None <==> self@.names.len() == 0,
            p matches Some(p) ==> p@ == self@.up(),
    {
        match self {
            TreePath::Under(step) => {
                assert(step.parent.names().push(step.name@).drop_last() =~= step.parent.names());
                Some(step.parent.clone())
            }
            _ => None,
        }
    }

    /// The last name, where there is one.
    pub fn last_name(&self) -> (n: Option<&Vec<u8>>)
        ensures
            n is None <==> self@.names.len() == 0,
            n matches Some(name) ==> name@ == self@.names.last(),
    {
        match self {
            TreePath::Under(step) => Some(&step.name),
            _ => None,
        }
    }

    /// Reads a path out of the bytes that spell it.
    pub fn parse(bytes: &[u8]) -> (p: TreePath)
        ensures
            p@ == path_of(bytes@),
    {
        let parts: Vec<Vec<u8>> = split_bytes(bytes, SLASH);
        let mut p: TreePath = if bytes.len() > 0 && bytes[0] == SLASH {
            TreePath::Root
        } else {
            TreePath::Empty
        };
        let ghost all = split_on(bytes@, SLASH);
        let ghost start = p@.absolute;
        let mut i: usize = 0;
        assert(named_parts(all.take(0)) =~= Seq::<Seq<u8>>::empty());
        while i < parts.len()
            invariant
                i <= parts.len(),
                all == views(parts@),
                p@.absolute == start,
                p@.names == named_parts(all.take(i as int)),
            decreases parts.len() - i,
        {
            assert(all.take(i + 1).drop_last() =~= all.take(i as int));
            assert(all.take(i + 1).last() == parts@[i as int]@);
            let part: &Vec<u8> = &parts[i];
            let dot: bool = part.len() == 1 && part[0] == DOT;
            assert(dot == (part@ =~= seq![DOT]));
            if part.len() > 0 && (!dot || i == 0) {
                let mut name: Vec<u8> = Vec::new();
                name.extend_from_slice(part.as_slice());
                assert(name@ =~= part@);
                p = p.join(name);
            }
            i += 1;
        }
        assert(all.take(all.len() as int) =~= all);
        p
    }

    /// The path written out, names joined by slashes.
    pub fn text(&self) -> (t: Vec<u8>)
        ensures
            t@ == self@.text(),
        decreases self,
    {
        match self {
            TreePath::Root => {
                let mut t: Vec<u8> = Vec::new();
                t.push(SLASH);
                assert(t@ =~= seq![SLASH]);
                t
            }
            TreePath::Empty => Vec::new(),
            TreePath::Under(step) => {
                let mut t: Vec<u8> = step.parent.text();
                proof {
                    let all = step.parent.names().push(step.name@);
                    assert(all.drop_last() =~= step.parent.names());
                    assert(self@.up() == step.parent@);
                }
                let nested: bool = match &step.parent {
                    TreePath::Under(_) => true,
                    _ => false,
                };
                if nested {
                    t.push(SLASH);
                }
                let ghost front = t@;
                t.extend_from_slice(step.name.as_slice());
                assert(t@ =~= front + step.name@);
                t
            }
        }
    }

    /// The last name, where it is a name of its own and not `.` or `..`.
    pub fn file_name(&self) -> (n: Option<&Vec<u8>>)
        ensures
            match n {
                Some(name) => self@.file_name() == Some(name@),
                None => self@.file_name() is None,
            },
    {
        if let TreePath::Under(step) = self {
            let n: &Vec<u8> = &step.name;
            let dot: bool = n.len() == 1 && n[0] == DOT;
            let dots: bool = n.len() == 2 && n[0] == DOT && n[1] == DOT;
            assert(dot == (n@ =~= seq![DOT]));
            assert(dots == (n@ =~= seq![DOT, DOT]));
            if !dot && !dots {
                return Some(n);
            }
        }
        None
    }

    /// What a row calls this path.
    pub fn title(&self) -> (s: String)
        ensures
            s@ == self@.title(),
    {
        match self.file_name() {
            Some(n) => lossy(n.as_slice()),
            None => {
                let t: Vec<u8> = self.text();
                lossy(t.as_slice())
            }
        }
    }

    /// Whether this path is `base` or lies somewhere below it.
    pub fn starts_with(&self, base: &TreePath) -> (r: bool)
        ensures
            r == self@.under(base@),
        decreases self,
    {
        if self.same(base) {
            assert(self@.names =~= base@.names);
            return true;
        }
        match self {
            TreePath::Under(step) => {
                let r: bool = step.parent.starts_with(base);
                proof {
                    let all = step.parent.names().push(step.name@);
                    assert(all.drop_last() =~= step.parent.names());
                    if r {
                        assert(base@.names.is_prefix_of(all));
                    } else if self@.under(base@) {
                        if base@.names.len() == all.len() {
                            assert(base@.names =~= all);
                        } else {
                            assert(base@.names =~= step.parent.names().take(base@.names.len() as int));
                        }
                    }
                }
                r
            }
            _ => {
                proof {
                    if self@.under(base@) {
                        assert(base@.names =~= self@.names);
                    }
                }
                false
            }
        }
    }

    /// Whether the two name the same place.
    pub fn same(&self, other: &TreePath) -> (r: bool)
        ensures
            r == (self@ == other@),
        decreases self,
    {
        match (self, other) {
            (TreePath::Root, TreePath::Root) => true,
            (TreePath::Empty, TreePath::Empty) => true,
            (TreePath::Under(a), TreePath::Under(b)) => {
                let r: bool = same_bytes(a.name.as_slice(), b.name.as_slice()) && a.parent.same(&b.parent);
                proof {
                    let x = a.parent.names();
                    let y = b.parent.names();
                    assert(x.push(a.name@).drop_last() =~= x);
                    assert(y.push(b.name@).drop_last() =~= y);
                    assert(x.push(a.name@).last() == a.name@);
                    assert(y.push(b.name@).last() == b.name@);
                }
                r
            }
            _ => {
                proof {
                    assert(self@.names.len() == other@.names.len() ==> self@.absolute != other@.absolute);
                }
                false
            }
        }
    }
}

// -- laws -----------------------------------------------------------------

proof fn lemma_text_starts(p: PathView)
    requires
        p.sound(),
    ensures
        p.names.len() > 0 || p.absolute ==> p.text().len() > 0,
        p.absolute ==> p.text()[0] == SLASH,
        !p.absolute && p.names.len() > 0 ==> p.text()[0] != SLASH,
    decreases p.names.len(),
{
    if p.names.len() > 0 {
        assert(sound_name(p.names[p.names.len() - 1], p.names.len() == 1 && !p.absolute));
        assert(p.up().sound()) by {
            assert forall|i: int| #![trigger p.up().names[i]] 0 <= i < p.up().names.len() implies sound_name(
                p.up().names[i],
                i == 0 && !p.absolute,
            ) by {
                assert(p.up().names[i] == p.names[i]);
            }
        }
        lemma_text_starts(p.up());
        reveal_with_fuel(PathView::text, 2);
        if p.names.len() == 1 && !p.absolute {
            assert(p.text() =~= p.names.last());
            assert(p.names.last()[0] != SLASH) by {
                if p.names.last()[0] == SLASH {
                    assert(p.names.last().contains(SLASH));
                }
            }
        }
    }
}

/// Reading a path back out of its text gives the same path.
pub proof fn lemma_text_round_trip(p: PathView)
    requires
        p.sound(),
    ensures
        path_of(p.text()) == p,
    decreases p.names.len(), 0int,
{
    let n = p.names.len();
    reveal_with_fuel(PathView::text, 2);
    lemma_text_starts(p);
    if n == 0 {
        if p.absolute {
            let a = Seq::<u8>::empty();
            let none = Seq::<u8>::empty();
            assert(p.text() =~= a.push(SLASH) + none);
            lemma_split_append(a, SLASH, none);
            let parts = split_on(a, SLASH).push(none);
            assert(parts.drop_last() =~= seq![none]);
            assert(parts.drop_last().drop_last() =~= Seq::<Seq<u8>>::empty());
            reveal_with_fuel(named_parts, 3);
        } else {
            assert(seq![Seq::<u8>::empty()].drop_last() =~= Seq::<Seq<u8>>::empty());
            reveal_with_fuel(named_parts, 2);
        }
        assert(path_of(p.text()).names =~= p.names);
    } else {
        let name = p.names.last();
        assert(sound_name(p.names[n - 1], n == 1 && !p.absolute));
        assert(p.up().sound()) by {
            assert forall|i: int| #![trigger p.up().names[i]] 0 <= i < p.up().names.len() implies sound_name(
                p.up().names[i],
                i == 0 && !p.absolute,
            ) by {
                assert(p.up().names[i] == p.names[i]);
            }
        }
        lemma_text_round_trip(p.up());
        assert(p.up().names.push(name) =~= p.names);
        if n == 1 && !p.absolute {
            assert(p.text() =~= name);
            lemma_split_single(name, SLASH);
            assert(seq![name].drop_last() =~= Seq::<Seq<u8>>::empty());
            reveal_with_fuel(named_parts, 2);
            assert(path_of(p.text()).names =~= seq![name]);
        } else if n == 1 {
            let a = Seq::<u8>::empty();
            assert(p.text() =~= a.push(SLASH) + name);
            lemma_split_append(a, SLASH, name);
            let parts = split_on(a, SLASH).push(name);
            assert(parts.drop_last() =~= seq![Seq::<u8>::empty()]);
            assert(parts.drop_last().drop_last() =~= Seq::<Seq<u8>>::empty());
            reveal_with_fuel(named_parts, 3);
            assert(path_of(p.text()).names =~= seq![name]);
        } else {
            lemma_joined_text(p.up(), name);
        }
        assert(path_of(p.text()).names =~= p.names);
    }
}

/// A name added to a path's text after a slash names the entry of that name:
/// what a page that only concatenates asks for is what the tree calls it.
pub proof fn lemma_joined_text(p: PathView, name: Seq<u8>)
    requires
        p.sound(),
        p.absolute || p.names.len() > 0,
        sound_name(name, false),
    ensures
        path_of(p.text().push(SLASH) + name) == p.child(name),
    decreases p.names.len(), 1int,
{
    lemma_text_starts(p);
    lemma_text_round_trip(p);
    let whole = p.text().push(SLASH) + name;
    lemma_split_append(p.text(), SLASH, name);
    lemma_split_nonempty(p.text(), SLASH);
    let parts = split_on(p.text(), SLASH).push(name);
    assert(parts.drop_last() =~= split_on(p.text(), SLASH));
    assert(whole[0] == p.text()[0]);
}

/// A slash more than it takes, a slash at the end, and a `.` between two slashes
/// are no part of a path.
pub proof fn lemma_paths_are_read_loosely(a: Seq<u8>, b: Seq<u8>)
    requires
        a.len() > 0,
    ensures
        path_of(a.push(SLASH)) == path_of(a),
        path_of(a.push(SLASH).push(SLASH) + b) == path_of(a.push(SLASH) + b),
        path_of(a.push(SLASH).push(DOT).push(SLASH) + b) == path_of(a.push(SLASH) + b),
{
    let none = Seq::<u8>::empty();
    let dot = seq![DOT];
    let x = split_on(a, SLASH);
    let y = split_on(b, SLASH);
    lemma_split_nonempty(a, SLASH);
    lemma_split_single(dot, SLASH);
    assert(a.push(SLASH) =~= a.push(SLASH) + none);
    lemma_split_append(a, SLASH, none);
    assert(x.push(none).drop_last() =~= x);
    lemma_split_joined(a, SLASH, b);
    lemma_split_joined(a.push(SLASH), SLASH, b);
    assert(split_on(a.push(SLASH), SLASH) == x.push(none));
    lemma_split_append(a, SLASH, dot);
    assert(a.push(SLASH) + dot =~= a.push(SLASH).push(DOT));
    lemma_split_joined(a.push(SLASH).push(DOT), SLASH, b);
    lemma_piece_skipped(x, none, y);
    lemma_piece_skipped(x, dot, y);
}

/// A piece that is no name makes no difference, behind a first one.
proof fn lemma_piece_skipped(x: Seq<Seq<u8>>, piece: Seq<u8>, y: Seq<Seq<u8>>)
    requires
        x.len() > 0,
        piece.len() == 0 || piece == seq![DOT],
    ensures
        named_parts(x.push(piece) + y) == named_parts(x + y),
    decreases y.len(),
{
    if y.len() == 0 {
        assert(x.push(piece) + y =~= x.push(piece));
        assert(x.push(piece).drop_last() =~= x);
        assert(x + y =~= x);
    } else {
        lemma_piece_skipped(x, piece, y.drop_last());
        assert((x.push(piece) + y).drop_last() =~= x.push(piece) + y.drop_last());
        assert((x + y).drop_last() =~= x + y.drop_last());
    }
}

/// A name joined on is the last name, comes off again, and leaves a path under
/// the one it was joined to and under no other that is as long.
pub proof fn lemma_joining_and_going_up(p: PathView, q: PathView, name: Seq<u8>)
    ensures
        p.child(name).names.last() == name,
        p.child(name).up() == p,
        p.child(name).under(p),
        p.under(p),
        p.child(name).under(q) && q.names.len() == p.names.len() ==> p == q,
        p.under(q) && q.under(p) ==> p == q,
        !p.under(p.child(name)),
        p.under(q) ==> p.child(name).under(q),
{
    assert(p.names.push(name).drop_last() =~= p.names);
    assert(p.names =~= p.names.push(name).subrange(0, p.names.len() as int));
    assert(p.names =~= p.names.subrange(0, p.names.len() as int));
    if p.child(name).under(q) && q.names.len() == p.names.len() {
        assert(q.names =~= p.names);
    }
    if p.under(q) && q.under(p) {
        assert(p.names =~= q.names);
    }
    if p.under(q) {
        assert(q.names =~= p.names.push(name).subrange(0, q.names.len() as int)) by {
            assert(q.names =~= p.names.subrange(0, q.names.len() as int));
        }
    }
}

/// What a path is called: its last name, and where that says nothing the whole
/// of it.
pub proof fn lemma_what_a_path_is_called(p: PathView, name: Seq<u8>)
    ensures
        name != seq![46u8] && name != seq![46u8, 46u8] ==> p.child(name).title() == text_of(name) && p.child(name).file_name() == Some(
            name,
        ),
        p.child(seq![46u8, 46u8]).file_name() is None,
        p.names.len() == 0 ==> p.file_name() is None && p.title() == text_of(p.text()),
        (PathView { absolute: true, names: Seq::empty() }).text() == seq![47u8],
        (PathView { absolute: false, names: Seq::empty() }).text().len() == 0,
        p.names.len() > 0 ==> p.child(name).text() == p.text() + seq![47u8] + name,
{
    assert(p.child(name).names.last() == name);
    assert(p.child(name).up() == p) by {
        assert(p.child(name).names.drop_last() =~= p.names);
    }
    if p.names.len() > 0 {
        assert(p.text().push(47u8) + name =~= p.text() + seq![47u8] + name);
    }
}

} // verus!
