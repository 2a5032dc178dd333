//! Making a listing out of what one directory level holds.

use vstd::prelude::*;

use crate::node::{distinct_names, Kind};
use crate::order::{
    arranged, is_order, item_before, key_before, key_views, lemma_one_listing, lemma_order_is_injective,
    lemma_text_irreflexive, lemma_the_order_is_a_dictionary, reads_before, sort_order,
};
use crate::path::DOT;
use crate::shown::lemma_few;
use crate::text::{
    chars_of, find_bytes, is_ascii_text, lemma_views_contains, lossy, text_of, lower, lower_of, views,
};
use crate::tree::{kept, ScanOptions};

verus! {

#[derive(Debug)]
pub struct Entry {
    pub name: Vec<u8>,
    pub kind: Kind,
    /// Whether the entry itself is a symlink, whatever it points at.
    pub symlink: bool,
    pub size: u64,
    /// Whether git would ignore this. Drawn dimmed; never hidden.
    pub ignored: bool,
}

/// An entry as plain values.
pub struct EntryView {
    pub name: Seq<u8>,
    pub kind: Kind,
    pub symlink: bool,
    pub size: u64,
    pub ignored: bool,
}

impl View for Entry {
    type V = EntryView;

    open spec fn view(&self) -> EntryView {
        EntryView {
            name: self.name@,
            kind: self.kind,
            symlink: self.symlink,
            size: self.size,
            ignored: self.ignored,
        }
    }
}

/// What a file turned out to be, once any link is followed.
#[derive(Debug, Clone, Copy)]
pub struct Target {
    pub dir: bool,
    pub socket: bool,
    pub fifo: bool,
    pub char_device: bool,
    pub block_device: bool,
    pub size: u64,
}

/// One name out of a directory, with what looking at it gave.
#[derive(Debug)]
pub struct Found {
    pub name: Vec<u8>,
    /// Whether it is a link, or `None` where it could not be looked at.
    pub link: Option<bool>,
    /// What it resolves to, or `None` where it resolves to nothing.
    pub target: Option<Target>,
}

impl Target {
    pub open spec fn kind(self) -> Kind {
        if self.dir {
            Kind::Dir
        } else if self.socket {
            Kind::Socket
        } else if self.fifo {
            Kind::Fifo
        } else if self.char_device {
            Kind::CharDevice
        } else if self.block_device {
            Kind::BlockDevice
        } else {
            Kind::File
        }
    }
}

/// What kind of thing a file is.
fn classify(t: &Target) -> (k: Kind)
    ensures
        k == t.kind(),
{
    if t.dir {
        Kind::Dir
    } else if t.socket {
        Kind::Socket
    } else if t.fifo {
        Kind::Fifo
    } else if t.char_device {
        Kind::CharDevice
    } else if t.block_device {
        Kind::BlockDevice
    } else {
        Kind::File
    }
}

/// Whether a name is a dotfile's.
pub open spec fn is_hidden(name: Seq<u8>) -> bool {
    name.len() > 0 && name[0] == DOT
}

/// The entry a name makes, if it makes one. A symlink is shown as whatever it
/// points at, so that a link to a directory opens like one; a link to nothing is
/// shown as broken, and anything else that cannot be looked at is left out.
pub open spec fn entry_of(f: Found, opts: ScanOptions) -> Option<EntryView> {
    let kind = match (f.link, f.target) {
        (None, _) => None,
        (Some(_), Some(t)) => Some(t.kind()),
        (Some(true), None) => Some(Kind::Broken),
        (Some(false), None) => None,
    };
    match kind {
        Some(kind) if (opts.show_hidden || !is_hidden(f.name@)) && (!opts.dirs_only || kind == Kind::Dir) => Some(
            EntryView {
                name: f.name@,
                kind,
                symlink: f.link == Some(true),
                size: match f.target {
                    Some(t) => t.size,
                    None => 0,
                },
                ignored: false,
            },
        ),
        _ => None,
    }
}

/// The entries of a directory in the order it gave them.
pub open spec fn entries_of(found: Seq<Found>, opts: ScanOptions) -> Seq<EntryView>
    decreases found.len(),
{
    if found.len() == 0 {
        Seq::empty()
    } else {
        let before = entries_of(found.drop_last(), opts);
        match entry_of(found.last(), opts) {
            Some(e) => before.push(e),
            None => before,
        }
    }
}

/// Entries as plain values.
pub open spec fn entry_views(entries: Seq<Entry>) -> Seq<EntryView> {
    entries.map_values(|e: Entry| e@)
}

/// What an entry is ordered by: directories first, then the name with case set
/// aside.
pub open spec fn sort_key(e: EntryView) -> (bool, Seq<char>) {
    (e.kind != Kind::Dir, lower_of(text_of(e.name)))
}

/// The sort keys of some entries.
pub open spec fn sort_keys(entries: Seq<EntryView>) -> Seq<(bool, Seq<char>)> {
    entries.map_values(|e: EntryView| sort_key(e))
}

fn make_entry(f: &Found, opts: &ScanOptions) -> (r: Option<Entry>)
    ensures
        match r {
            Some(e) => entry_of(*f, *opts) == Some(e@),
            None => entry_of(*f, *opts) is None,
        },
{
    if !opts.show_hidden && f.name.len() > 0 && f.name[0] == DOT {
        return None;
    }
    let (kind, size): (Kind, u64) = match (f.link, &f.target) {
        (None, _) => {
            return None;
        }
        (Some(_), Some(t)) => (classify(t), t.size),
        (Some(true), None) => (Kind::Broken, 0),
        (Some(false), None) => {
            return None;
        }
    };
    if opts.dirs_only && kind != Kind::Dir {
        return None;
    }
    let mut name: Vec<u8> = Vec::new();
    name.extend_from_slice(f.name.as_slice());
    assert(name@ =~= f.name@);
    let symlink: bool = match f.link {
        Some(link) => link,
        None => false,
    };
    Some(Entry { name, kind, symlink, size, ignored: false })
}

/// What each entry is ordered by.
fn keys_of(entries: &Vec<Entry>) -> (keys: Vec<(bool, Vec<char>)>)
    ensures
        key_views(keys@) == sort_keys(entry_views(entries@)),
{
    let mut keys: Vec<(bool, Vec<char>)> = Vec::new();
    let mut i: usize = 0;
    while i < entries.len()
        invariant
            i <= entries@.len(),
            keys@.len() == i,
            forall|k: int|
                #![trigger keys@[k]]
                0 <= k < i ==> (keys@[k].0, keys@[k].1@) == sort_key(entries@[k]@),
        decreases entries.len() - i,
    {
        let e: &Entry = &entries[i];
        let text: String = lossy(e.name.as_slice());
        let low: String = lower(text.as_str());
        keys.push((e.kind != Kind::Dir, chars_of(low.as_str())));
        i += 1;
    }
    assert(key_views(keys@) =~= sort_keys(entry_views(entries@)));
    keys
}

/// Copies an entry.
fn same_entry(e: &Entry) -> (c: Entry)
    ensures
        c@ == e@,
{
    let mut name: Vec<u8> = Vec::new();
    name.extend_from_slice(e.name.as_slice());
    assert(name@ =~= e.name@);
    Entry { name, kind: e.kind, symlink: e.symlink, size: e.size, ignored: e.ignored }
}

/// Lays entries out in an order found for them.
fn arrange(entries: &Vec<Entry>, order: &Vec<usize>, Ghost(keys): Ghost<Seq<(bool, Seq<char>)>>) -> (out: Vec<Entry>)
    requires
        keys.len() == entries@.len(),
        is_order(keys, order@),
    ensures
        arranged(keys, entry_views(entries@), entry_views(out@)),
{
    let ghost items = entry_views(entries@);
    let mut out: Vec<Entry> = Vec::new();
    let mut i: usize = 0;
    while i < order.len()
        invariant
            i <= order@.len(),
            keys.len() == entries@.len(),
            is_order(keys, order@),
            items == entry_views(entries@),
            out@.len() == i,
            forall|k: int| #![trigger out@[k]] 0 <= k < i ==> out@[k]@ == items[order@[k] as int],
        decreases order.len() - i,
    {
        assert(order@.contains(order@[i as int]));
        let e: Entry = same_entry(&entries[order[i]]);
        out.push(e);
        i += 1;
    }
    assert(entry_views(out@) =~= order@.map_values(|i: usize| items[i as int]));
    out
}

/// Makes the listing of one directory, directories first and then by name.
///
/// `found` is what reading it gave, or `None` where it could not be read.
/// Unreadable directories come back empty rather than erroring: a
/// permission-denied folder should still be visible in the tree, just without
/// contents.
pub fn read_dir(found: Option<Vec<Found>>, opts: &ScanOptions) -> (entries: Vec<Entry>)
    ensures
        match found {
            Some(found) => arranged(
                sort_keys(entries_of(found@, *opts)),
                entries_of(found@, *opts),
                entry_views(entries@),
            ),
            None => entries@.len() == 0,
        },
        (found matches Some(found) ==> distinct_found(found@)) ==> distinct_names(entries@),
{
    let found: Vec<Found> = match found {
        Some(found) => found,
        None => {
            return Vec::new();
        }
    };
    let mut entries: Vec<Entry> = Vec::new();
    let mut i: usize = 0;
    assert(found@.take(0) =~= Seq::<Found>::empty());
    assert(entry_views(entries@) =~= Seq::<EntryView>::empty());
    while i < found.len()
        invariant
            i <= found@.len(),
            entry_views(entries@) == entries_of(found@.take(i as int), *opts),
        decreases found.len() - i,
    {
        assert(found@.take(i + 1).drop_last() =~= found@.take(i as int));
        if let Some(e) = make_entry(&found[i], opts) {
            let ghost before = entries@;
            entries.push(e);
            assert(entry_views(entries@) =~= entry_views(before).push(e@));
        }
        i += 1;
    }
    assert(found@.take(found@.len() as int) =~= found@);
    let ghost all = entry_views(entries@);
    let keys: Vec<(bool, Vec<char>)> = keys_of(&entries);
    let order: Vec<usize> = sort_order(&keys);
    let out: Vec<Entry> = arrange(&entries, &order, Ghost(sort_keys(all)));
    proof {
        if distinct_found(found@) {
            lemma_entries_distinct(found@, *opts);
            lemma_arranged_distinct(sort_keys(all), all, out@);
        }
    }
    out
}

/// A directory names each thing in it once.
pub open spec fn distinct_found(found: Seq<Found>) -> bool {
    forall|a: int, b: int|
        #![trigger found[a], found[b]]
        0 <= a < b < found.len() ==> found[a].name@ != found[b].name@
}

proof fn lemma_entries_named(found: Seq<Found>, opts: ScanOptions, k: int) -> (j: int)
    requires
        0 <= k < entries_of(found, opts).len(),
    ensures
        0 <= j < found.len(),
        found[j].name@ == entries_of(found, opts)[k].name,
    decreases found.len(),
{
    let front = entries_of(found.drop_last(), opts);
    if k < front.len() {
        let j = lemma_entries_named(found.drop_last(), opts, k);
        assert(found.drop_last()[j] == found[j]);
        j
    } else {
        found.len() - 1
    }
}

proof fn lemma_entries_distinct(found: Seq<Found>, opts: ScanOptions)
    requires
        distinct_found(found),
    ensures
        forall|a: int, b: int|
            #![trigger entries_of(found, opts)[a], entries_of(found, opts)[b]]
            0 <= a < b < entries_of(found, opts).len() ==> entries_of(found, opts)[a].name != entries_of(
                found,
                opts,
            )[b].name,
    decreases found.len(),
{
    if found.len() > 0 {
        let short = found.drop_last();
        let all = entries_of(found, opts);
        let front = entries_of(short, opts);
        assert forall|a: int, b: int| #![trigger short[a], short[b]] 0 <= a < b < short.len() implies short[a].name@ != short[b].name@ by {
            assert(short[a] == found[a] && short[b] == found[b]);
        }
        lemma_entries_distinct(short, opts);
        assert forall|a: int, b: int| #![trigger all[a], all[b]] 0 <= a < b < all.len() implies all[a].name != all[b].name by {
            assert(all[a] == front[a]);
            if b < front.len() {
                assert(all[b] == front[b]);
            } else {
                let j = lemma_entries_named(short, opts, a);
                assert(short[j] == found[j]);
                assert(found[j].name@ != found[found.len() - 1].name@);
            }
        }
    }
}

proof fn lemma_arranged_distinct(keys: Seq<(bool, Seq<char>)>, items: Seq<EntryView>, out: Seq<Entry>)
    requires
        keys.len() == items.len(),
        arranged(keys, items, entry_views(out)),
        forall|a: int, b: int| #![trigger items[a], items[b]] 0 <= a < b < items.len() ==> items[a].name != items[b].name,
    ensures
        distinct_names(out),
{
    let order = choose|order: Seq<usize>| #[trigger]
        is_order(keys, order) && entry_views(out) == order.map_values(|i: usize| items[i as int]);
    assert forall|a: int, b: int| #![trigger out[a], out[b]] 0 <= a < out.len() && 0 <= b < out.len() && out[a].name@ == out[b].name@ implies a == b by {
        assert(entry_views(out).len() == out.len());
        assert(entry_views(out)[a] == items[order[a] as int]);
        assert(entry_views(out)[b] == items[order[b] as int]);
        assert(order.contains(order[a]) && order.contains(order[b]));
        let x = order[a] as int;
        let y = order[b] as int;
        if x < y {
            assert(items[x].name != items[y].name);
        } else if y < x {
            assert(items[y].name != items[x].name);
        } else {
            lemma_order_is_injective(keys, order, a, b);
        }
    }
}

// -- laws -----------------------------------------------------------------

/// A listing has its directories first. Of two entries that are both directories
/// or both not, the one that comes first has a name, all of it and with case set
/// aside, that is the other's or comes before it in a dictionary.
pub proof fn lemma_a_listing_is_in_order(found: Seq<Found>, opts: ScanOptions, listing: Seq<EntryView>, a: int, b: int)
    requires
        arranged(sort_keys(entries_of(found, opts)), entries_of(found, opts), listing),
        0 <= a < b < listing.len(),
    ensures
        listing[b].kind == Kind::Dir ==> listing[a].kind == Kind::Dir,
        (listing[a].kind == Kind::Dir <==> listing[b].kind == Kind::Dir) ==> {
            let x = lower_of(text_of(listing[a].name));
            let y = lower_of(text_of(listing[b].name));
            x == y || reads_before(x, y)
        },
{
    let items = entries_of(found, opts);
    let keys = sort_keys(items);
    let order = choose|order: Seq<usize>| #[trigger]
        is_order(keys, order) && listing == order.map_values(|i: usize| items[i as int]);
    let i = order[a] as int;
    let j = order[b] as int;
    assert(order.contains(order[a]) && order.contains(order[b]));
    assert(item_before(keys, i, j));
    assert(listing[a] == items[i] && listing[b] == items[j]);
    lemma_the_order_is_a_dictionary(lower_of(text_of(listing[a].name)), lower_of(text_of(listing[b].name)));
}

/// Every entry that reading a directory makes is in the listing, and nothing
/// else is.
pub proof fn lemma_a_listing_holds_what_was_found(
    found: Seq<Found>,
    opts: ScanOptions,
    listing: Seq<EntryView>,
    e: EntryView,
)
    requires
        arranged(sort_keys(entries_of(found, opts)), entries_of(found, opts), listing),
    ensures
        listing.contains(e) <==> exists|j: int| 0 <= j < found.len() && entry_of(#[trigger] found[j], opts) == Some(e),
        listing.len() == entries_of(found, opts).len(),
{
    let items = entries_of(found, opts);
    let keys = sort_keys(items);
    let order = choose|order: Seq<usize>| #[trigger]
        is_order(keys, order) && listing == order.map_values(|i: usize| items[i as int]);
    lemma_entries_made(found, opts, e);
    if listing.contains(e) {
        let k = choose|k: int| 0 <= k < listing.len() && listing[k] == e;
        assert(order.contains(order[k]));
        assert(items[order[k] as int] == e);
        assert(items.contains(e));
    }
    if items.contains(e) {
        let i = choose|i: int| 0 <= i < items.len() && items[i] == e;
        lemma_every_item_has_a_place(keys, order, i);
        let k = choose|k: int| 0 <= k < order.len() && order[k] == i;
        assert(listing[k] == e);
    }
}

/// Every item is somewhere in the order.
proof fn lemma_every_item_has_a_place(keys: Seq<(bool, Seq<char>)>, order: Seq<usize>, i: int)
    requires
        is_order(keys, order),
        0 <= i < keys.len(),
    ensures
        exists|k: int| 0 <= k < order.len() && #[trigger] order[k] == i,
{
    let ids = order.map_values(|x: usize| x as int);
    assert forall|a: int, b: int| #![trigger ids[a], ids[b]] 0 <= a < b < ids.len() implies ids[a] != ids[b] by {
        if ids[a] == ids[b] {
            lemma_order_is_injective(keys, order, a, b);
        }
    }
    lemma_few(ids, (usize::MAX + 1) as nat);
    assert(order.contains(i as usize));
}

/// What reading a directory makes, whichever name made it.
proof fn lemma_entries_made(found: Seq<Found>, opts: ScanOptions, e: EntryView)
    ensures
        entries_of(found, opts).contains(e) <==> exists|j: int|
            0 <= j < found.len() && entry_of(#[trigger] found[j], opts) == Some(e),
    decreases found.len(),
{
    if found.len() > 0 {
        let front = found.drop_last();
        let before = entries_of(front, opts);
        let all = entries_of(found, opts);
        lemma_entries_made(front, opts, e);
        if all.contains(e) {
            if before.contains(e) {
                let j = choose|j: int| 0 <= j < front.len() && entry_of(#[trigger] front[j], opts) == Some(e);
                assert(found[j] == front[j]);
            } else {
                let k = choose|k: int| 0 <= k < all.len() && all[k] == e;
                assert(k < before.len() ==> before[k] == e);
                assert(entry_of(found[found.len() - 1], opts) == Some(e));
            }
        }
        if exists|j: int| 0 <= j < found.len() && entry_of(#[trigger] found[j], opts) == Some(e) {
            let j = choose|j: int| 0 <= j < found.len() && entry_of(#[trigger] found[j], opts) == Some(e);
            if j < front.len() {
                assert(front[j] == found[j]);
                let k = choose|k: int| 0 <= k < before.len() && before[k] == e;
                assert(all[k] == e);
            } else {
                assert(all[before.len() as int] == e);
            }
        }
    }
}

/// What order a directory is read in does not show: two readings that make the
/// same entries, no two of them with one name when case is set aside, give one
/// listing.
pub proof fn lemma_the_order_of_reading_does_not_show(
    found: Seq<Found>,
    again: Seq<Found>,
    opts: ScanOptions,
    listing: Seq<EntryView>,
    other: Seq<EntryView>,
)
    requires
        arranged(sort_keys(entries_of(found, opts)), entries_of(found, opts), listing),
        arranged(sort_keys(entries_of(again, opts)), entries_of(again, opts), other),
        entries_of(found, opts).len() == entries_of(again, opts).len(),
        forall|e: EntryView|
            #![trigger entries_of(found, opts).contains(e)]
            entries_of(found, opts).contains(e) <==> entries_of(again, opts).contains(e),
        forall|a: int, b: int|
            #![trigger listing[a], listing[b]]
            0 <= a < b < listing.len() ==> lower_of(text_of(listing[a].name)) != lower_of(text_of(listing[b].name)),
        forall|a: int, b: int|
            #![trigger other[a], other[b]]
            0 <= a < b < other.len() ==> lower_of(text_of(other[a].name)) != lower_of(text_of(other[b].name)),
    ensures
        listing == other,
{
    let key = |e: EntryView| sort_key(e);
    assert forall|i: int| #![trigger listing[i]] 0 <= i < listing.len() implies other.contains(listing[i]) by {
        lemma_a_listing_holds_what_was_found(found, opts, listing, listing[i]);
        lemma_a_listing_holds_what_was_found(again, opts, other, listing[i]);
        lemma_entries_made(found, opts, listing[i]);
        lemma_entries_made(again, opts, listing[i]);
        assert(listing.contains(listing[i]));
        assert(entries_of(found, opts).contains(listing[i]));
    }
    assert forall|i: int| #![trigger other[i]] 0 <= i < other.len() implies listing.contains(other[i]) by {
        lemma_a_listing_holds_what_was_found(found, opts, listing, other[i]);
        lemma_a_listing_holds_what_was_found(again, opts, other, other[i]);
        lemma_entries_made(found, opts, other[i]);
        lemma_entries_made(again, opts, other[i]);
        assert(other.contains(other[i]));
        assert(entries_of(again, opts).contains(other[i]));
        assert(entries_of(found, opts).contains(other[i]));
    }
    assert forall|a: int, b: int| #![trigger listing[a], listing[b]] 0 <= a < b < listing.len() implies key_before(
        key(listing[a]),
        key(listing[b]),
    ) by {
        lemma_a_listing_is_in_order(found, opts, listing, a, b);
        lemma_the_order_is_a_dictionary(lower_of(text_of(listing[a].name)), lower_of(text_of(listing[b].name)));
    }
    assert forall|a: int, b: int| #![trigger other[a], other[b]] 0 <= a < b < other.len() implies key_before(
        key(other[a]),
        key(other[b]),
    ) by {
        lemma_a_listing_is_in_order(again, opts, other, a, b);
        lemma_the_order_is_a_dictionary(lower_of(text_of(other[a].name)), lower_of(text_of(other[b].name)));
    }
    lemma_one_listing(listing, other, key, listing.len() as int);
    assert(listing =~= other);
}

/// Entries whose names are one when case is set aside, both directories or both
/// not, stay in the order they were read in.
pub proof fn lemma_equal_names_keep_their_order(found: Seq<Found>, opts: ScanOptions, listing: Seq<EntryView>)
    requires
        arranged(sort_keys(entries_of(found, opts)), entries_of(found, opts), listing),
    ensures
        exists|from: Seq<usize>|
            #![trigger from.len()]
            {
                &&& from.len() == listing.len()
                &&& forall|k: int|
                    #![trigger from[k]]
                    0 <= k < from.len() ==> from[k] < entries_of(found, opts).len() && listing[k] == entries_of(found, opts)[from[k] as int]
                &&& forall|a: int, b: int|
                    #![trigger from[a], from[b]]
                    0 <= a < b < from.len() && (listing[a].kind == Kind::Dir <==> listing[b].kind == Kind::Dir) && lower_of(
                        text_of(listing[a].name),
                    ) == lower_of(text_of(listing[b].name)) ==> from[a] < from[b]
            },
{
    let items = entries_of(found, opts);
    let keys = sort_keys(items);
    let order = choose|order: Seq<usize>| #[trigger]
        is_order(keys, order) && listing == order.map_values(|i: usize| items[i as int]);
    assert forall|k: int| #![trigger order[k]] 0 <= k < order.len() implies order[k] < items.len() && listing[k] == items[order[k] as int] by {
        assert(order.contains(order[k]));
    }
    assert forall|a: int, b: int|
        #![trigger order[a], order[b]]
        0 <= a < b < order.len() && (listing[a].kind == Kind::Dir <==> listing[b].kind == Kind::Dir) && lower_of(
            text_of(listing[a].name),
        ) == lower_of(text_of(listing[b].name)) implies order[a] < order[b] by {
        assert(order.contains(order[a]) && order.contains(order[b]));
        assert(item_before(keys, order[a] as int, order[b] as int));
        lemma_the_order_is_a_dictionary(lower_of(text_of(listing[a].name)), lower_of(text_of(listing[b].name)));
        lemma_text_irreflexive(lower_of(text_of(listing[a].name)));
    }
    assert(order.len() == listing.len());
}

/// What a name out of a directory comes to. A dotfile counts only where they are
/// shown, a link is what it points at, one that points at nothing is broken,
/// what cannot be looked at is left out, and where only directories count
/// nothing else does.
pub proof fn lemma_what_a_name_comes_to(f: Found, opts: ScanOptions)
    ensures
        f.name@.len() > 0 && f.name@[0] == 46 && !opts.show_hidden ==> entry_of(f, opts) is None,
        f.link is None ==> entry_of(f, opts) is None,
        f.link == Some(false) && f.target is None ==> entry_of(f, opts) is None,
        entry_of(f, opts) matches Some(e) ==> {
            &&& e.name == f.name@
            &&& e.symlink == (f.link == Some(true))
            &&& !e.ignored
            &&& opts.dirs_only ==> e.kind == Kind::Dir
            &&& f.target matches Some(t) ==> e.size == t.size && (e.kind == Kind::Dir <==> t.dir)
            &&& f.target is None ==> e.size == 0 && e.kind == Kind::Broken
        },
        f.link is Some && (f.target matches Some(t) && (t.dir || !opts.dirs_only)) && (opts.show_hidden || f.name@.len() == 0
            || f.name@[0] != 46) ==> entry_of(f, opts) is Some,
        f.link == Some(true) && f.target is None && !opts.dirs_only && (opts.show_hidden || f.name@.len() == 0 || f.name@[0]
            != 46) ==> entry_of(f, opts) is Some,
{
}

/// What a file is called where it is several of these things at once is the first
/// of them; where it is none it is an ordinary file.
pub proof fn lemma_what_kind_a_target_is(t: Target)
    ensures
        t.kind() == Kind::Dir <==> t.dir,
        t.kind() == Kind::Socket <==> t.socket && !t.dir,
        t.kind() == Kind::Fifo <==> t.fifo && !t.dir && !t.socket,
        t.kind() == Kind::CharDevice <==> t.char_device && !t.dir && !t.socket && !t.fifo,
        t.kind() == Kind::BlockDevice <==> t.block_device && !t.dir && !t.socket && !t.fifo && !t.char_device,
        t.kind() == Kind::File <==> !t.dir && !t.socket && !t.fifo && !t.char_device && !t.block_device,
        t.kind() != Kind::Broken,
{
}

/// With case set aside an ASCII name has the small letter for every capital, and
/// everything else as it was.
pub proof fn lemma_case_set_aside(s: Seq<char>, k: int)
    requires
        forall|j: int| #![trigger s[j]] 0 <= j < s.len() ==> (s[j] as u32) < 128,
        0 <= k < s.len(),
    ensures
        lower_of(s).len() == s.len(),
        65 <= s[k] as u32 <= 90 ==> lower_of(s)[k] as u32 == s[k] as u32 + 32,
        !(65 <= s[k] as u32 <= 90) ==> lower_of(s)[k] == s[k],
{
    assert(is_ascii_text(s));
}

// -- what git ignores -----------------------------------------------------

/// `.git`.
pub open spec fn dot_git() -> Seq<u8> {
    seq![46u8, 103u8, 105u8, 116u8]
}

/// Which names of a listing git is asked about: none where it is not to be
/// asked, none below an ignored directory, since git cannot re-include a path
/// whose parent is excluded, and otherwise those of the entries that survive
/// the limit on one directory.
pub open spec fn asked(entries: Seq<Entry>, opts: ScanOptions, parent_ignored: bool) -> Seq<Seq<u8>> {
    if !opts.git_ignore || parent_ignored {
        Seq::empty()
    } else {
        kept(entries, opts.max_entries as int).map_values(|e: Entry| e.name@)
    }
}

/// The names git is to be asked about.
pub fn names_to_ask(entries: &Vec<Entry>, opts: &ScanOptions, parent_ignored: bool) -> (names: Vec<Vec<u8>>)
    ensures
        views(names@) == asked(entries@, *opts, parent_ignored),
{
    let mut names: Vec<Vec<u8>> = Vec::new();
    if !opts.git_ignore || parent_ignored {
        assert(views(names@) =~= Seq::<Seq<u8>>::empty());
        return names;
    }
    let n: usize = if entries.len() > opts.max_entries {
        opts.max_entries
    } else {
        entries.len()
    };
    let mut i: usize = 0;
    while i < n
        invariant
            i <= n <= entries@.len(),
            names@.len() == i,
            forall|k: int| #![trigger names@[k]] 0 <= k < i ==> names@[k]@ == entries@[k].name@,
        decreases n - i,
    {
        let mut name: Vec<u8> = Vec::new();
        name.extend_from_slice(entries[i].name.as_slice());
        assert(name@ =~= entries@[i as int].name@);
        names.push(name);
        i += 1;
    }
    assert(views(names@) =~= asked(entries@, *opts, parent_ignored));
    names
}

/// Whether an entry is drawn dimmed. git never calls its own directory ignored,
/// since it is not untracked but the repository; it is still not what anyone
/// opened a tree to read. Where git had no answer, nothing is dimmed.
pub open spec fn dimmed(name: Seq<u8>, opts: ScanOptions, parent_ignored: bool, answer: Option<Seq<Seq<u8>>>) -> bool {
    opts.git_ignore && (parent_ignored || match answer {
        Some(said) => name == dot_git() || said.contains(name),
        None => false,
    })
}

/// What git said, as plain values.
pub open spec fn answer_view(answer: Option<Vec<Vec<u8>>>) -> Option<Seq<Seq<u8>>> {
    match answer {
        Some(said) => Some(views(said@)),
        None => None,
    }
}

/// Marks what git would ignore, with what it answered.
pub fn mark_ignored(entries: &mut Vec<Entry>, opts: &ScanOptions, parent_ignored: bool, answer: &Option<Vec<Vec<u8>>>)
    ensures
        final(entries)@.len() == old(entries)@.len(),
        forall|k: int|
            #![trigger final(entries)@[k]]
            0 <= k < old(entries)@.len() ==> final(entries)@[k] == (if opts.git_ignore {
                Entry {
                    ignored: dimmed(old(entries)@[k].name@, *opts, parent_ignored, answer_view(*answer)),
                    ..old(entries)@[k]
                }
            } else {
                old(entries)@[k]
            }),
{
    if !opts.git_ignore {
        return ;
    }
    let ghost before = entries@;
    let mut from: usize = 0;
    let mut i: usize = 0;
    while i < entries.len()
        invariant
            i <= entries@.len(),
            entries@.len() == before.len(),
            before == old(entries)@,
            opts.git_ignore,
            *answer matches Some(said) ==> from <= said@.len(),
            forall|k: int|
                #![trigger entries@[k]]
                0 <= k < before.len() ==> entries@[k] == (if k < i {
                    Entry { ignored: dimmed(before[k].name@, *opts, parent_ignored, answer_view(*answer)), ..before[k] }
                } else {
                    before[k]
                }),
        decreases entries.len() - i,
    {
        let own: bool = {
            let n: &Vec<u8> = &entries[i].name;
            n.len() == 4 && n[0] == 46 && n[1] == 103 && n[2] == 105 && n[3] == 116
        };
        assert(own == (before[i as int].name@ =~= dot_git()));
        let mut ignored: bool = parent_ignored;
        if let Some(said) = answer {
            ignored = ignored || own;
            let found: Option<usize> = find_bytes(said, entries[i].name.as_slice(), from);
            if let Some(k) = found {
                ignored = true;
                from = k;
            }
            proof {
                lemma_views_contains(said@, before[i as int].name@);
            }
        }
        entries[i].ignored = ignored;
        i += 1;
    }
}

/// One answer covers a whole subtree: whatever is in an ignored directory is
/// ignored too, and it takes no asking.
pub proof fn lemma_dimmed_all_the_way_down(entries: Seq<Entry>, name: Seq<u8>, opts: ScanOptions, answer: Option<Seq<Seq<u8>>>)
    requires
        opts.git_ignore,
    ensures
        dimmed(name, opts, true, answer),
        asked(entries, opts, true).len() == 0,
{
}

/// A machine without git, or a directory in no repository, has nothing dimmed
/// but what sits below something that is.
pub proof fn lemma_no_answer_dims_nothing(name: Seq<u8>, opts: ScanOptions)
    ensures
        !dimmed(name, opts, false, None),
{
}

/// Switched off, nothing is dimmed and git is asked nothing.
pub proof fn lemma_dimming_switched_off(
    entries: Seq<Entry>,
    name: Seq<u8>,
    opts: ScanOptions,
    parent_ignored: bool,
    answer: Option<Seq<Seq<u8>>>,
)
    requires
        !opts.git_ignore,
    ensures
        !dimmed(name, opts, parent_ignored, answer),
        asked(entries, opts, parent_ignored).len() == 0,
{
}

/// Where git answered, what it named is dimmed, and its own directory is; where
/// it did not, nothing is but what is below something that is. It is asked of the
/// names that are listed, up to the limit, in order.
pub proof fn lemma_what_is_dimmed(
    entries: Seq<Entry>,
    name: Seq<u8>,
    opts: ScanOptions,
    parent_ignored: bool,
    said: Seq<Seq<u8>>,
    k: int,
)
    requires
        opts.git_ignore,
    ensures
        dimmed(name, opts, parent_ignored, Some(said)) <==> parent_ignored || said.contains(name) || name
            == ".git"@.map_values(|c: char| c as u8),
        dimmed(name, opts, parent_ignored, None) <==> parent_ignored,
        !parent_ignored ==> asked(entries, opts, parent_ignored).len() == (if entries.len() <= opts.max_entries {
            entries.len() as int
        } else {
            opts.max_entries as int
        }),
        !parent_ignored && 0 <= k < asked(entries, opts, parent_ignored).len() ==> asked(entries, opts, parent_ignored)[k]
            == entries[k].name@,
{
    reveal_strlit(".git");
    assert(".git"@.map_values(|c: char| c as u8) =~= dot_git());
}

} // verus!
