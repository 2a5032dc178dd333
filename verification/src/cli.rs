//! What the command line comes to: the tree in print, where to listen, and
//! which way to run.

use vstd::prelude::*;
use vstd::string::*;

use crate::node::{at, is_tree, kids, links_down, live, one_below, Slots};
use crate::outline::{lemma_the_last_has_nothing_after_it, more_follow};
use crate::shown::{
    deeper, lemma_deeper_step, level, row_of, rows_of, shown, shown_below, shown_from, Row, Shown,
};
use crate::state::Snapshot;
use crate::text::{
    ascii_of, chars_of, decimal, decimal_of, lemma_numbers_are_digits, lemma_numbers_read_back,
    lemma_only_digits_are_numbers, lossy, text_of, number_in, parse_uint, string_of,
};

use crate::visibility::{lemma_rows_rebuild_paths, parent_row};

verus! {

// -- printing -------------------------------------------------------------

/// The first `n` of some flags, or all of them where there are fewer.
pub open spec fn first_of(lasts: Seq<bool>, n: int) -> Seq<bool> {
    if n <= 0 {
        Seq::empty()
    } else if n < lasts.len() {
        lasts.take(n)
    } else {
        lasts
    }
}

/// Whether each row above row `i`, from the outermost down, was the last of its
/// siblings.
pub open spec fn lasts_above(rows: Seq<Row>, i: int) -> Seq<bool>
    decreases i,
{
    if i <= 1 {
        Seq::empty()
    } else {
        first_of(lasts_above(rows, i - 1), rows[i - 1].depth - 1).push(rows[i - 1].last)
    }
}

/// A continuing line where more siblings follow, blank padding where none do.
pub open spec fn guides(lasts: Seq<bool>) -> Seq<char>
    decreases lasts.len(),
{
    if lasts.len() == 0 {
        Seq::empty()
    } else {
        guides(lasts.drop_last()) + (if lasts.last() {
            "    "@
        } else {
            "│   "@
        })
    }
}

/// A row below the root as it is printed.
pub open spec fn printed_row(rows: Seq<Row>, i: int) -> Seq<char> {
    let row = rows[i];
    guides(first_of(lasts_above(rows, i), row.depth - 1)) + (if row.last {
        "└── "@
    } else {
        "├── "@
    }) + row.name@ + row.kind.spec_suffix() + rest_of(row)
}

/// What a directory's own line says of the entries left out of it.
pub open spec fn rest_of(row: Row) -> Seq<char> {
    if row.omitted > 0 {
        "  … "@ + decimal(row.omitted as nat) + " more not listed"@
    } else {
        Seq::empty()
    }
}

/// The first line: where the tree is, and what is left out of the directory
/// itself.
pub open spec fn printed_root(snapshot: &Snapshot) -> Seq<char> {
    text_of(snapshot.root@.text()) + (if snapshot.rows@.len() > 0 {
        rest_of(snapshot.rows@[0])
    } else {
        Seq::empty()
    })
}

/// The tree as lines: the root's path, and a line for every row below it.
pub fn print_tree(snapshot: &Snapshot) -> (lines: Vec<String>)
    ensures
        lines@.len() == 1 + crate::tui::area::less(snapshot.rows@.len() as int, 1),
        lines@[0]@ == printed_root(snapshot),
        forall|i: int|
            #![trigger lines@[i]]
            1 <= i < lines@.len() ==> lines@[i]@ == printed_row(snapshot.rows@, i),
{
    let rows: &Vec<Row> = &snapshot.rows;
    let path: Vec<u8> = snapshot.root.text();
    let mut lines: Vec<String> = Vec::new();
    let mut first: String = lossy(path.as_slice());
    if rows.len() > 0 {
        say_rest(&mut first, &rows[0]);
    }
    assert(first@ =~= printed_root(snapshot));
    lines.push(first);
    let mut lasts: Vec<bool> = Vec::new();
    let mut i: usize = 1;
    assert(lasts@ =~= Seq::<bool>::empty());
    while i < rows.len()
        invariant
            1 <= i,
            rows@ == snapshot.rows@,
            lines@.len() == i,
            i <= rows@.len() || rows@.len() <= 1,
            rows@.len() <= 1 ==> i == 1,
            lines@[0]@ == printed_root(snapshot),
            lasts@ == lasts_above(rows@, i as int),
            forall|k: int| #![trigger lines@[k]] 1 <= k < i ==> lines@[k]@ == printed_row(rows@, k),
        decreases rows.len() - i,
    {
        let row: &Row = &rows[i];
        let above: usize = row.depth.saturating_sub(1);
        let ghost before = lasts@;
        lasts.truncate(above);
        assert(lasts@ =~= first_of(before, row.depth - 1));
        let mut line: String = guide_text(&lasts);
        line.append(if row.last { "└── " } else { "├── " });
        line.append(row.name.as_str());
        line.append(row.kind.suffix());
        say_rest(&mut line, row);
        lasts.push(row.last);
        lines.push(line);
        i += 1;
    }
    lines
}

/// Says what is left out of a directory, on its own line.
fn say_rest(line: &mut String, row: &Row)
    ensures
        final(line)@ == old(line)@ + rest_of(*row),
{
    if row.omitted > 0 {
        line.append("  … ");
        line.append(decimal_of(row.omitted as u64).as_str());
        line.append(" more not listed");
    }
    assert(line@ =~= old(line)@ + rest_of(*row));
}

/// What goes in front of a row.
fn guide_text(lasts: &Vec<bool>) -> (s: String)
    ensures
        s@ == guides(lasts@),
{
    let mut s: String = String::new();
    let mut i: usize = 0;
    assert(s@ =~= guides(lasts@.take(0)));
    while i < lasts.len()
        invariant
            i <= lasts@.len(),
            s@ == guides(lasts@.take(i as int)),
        decreases lasts.len() - i,
    {
        assert(lasts@.take(i + 1).drop_last() =~= lasts@.take(i as int));
        s.append(if lasts[i] { "    " } else { "│   " });
        i += 1;
    }
    assert(lasts@.take(lasts@.len() as int) =~= lasts@);
    s
}

/// The rows are those of a tree: below the first one, each is at most a level
/// further down than the one before it.
pub open spec fn nested(rows: Seq<Row>) -> bool {
    forall|i: int, j: int|
        #![trigger rows[i], rows[j]]
        0 <= i && j == i + 1 && j < rows.len() ==> 1 <= rows[j].depth <= rows[i].depth + 1
}

/// Whether places are nested below a first one at `depth`.
spec fn nests(places: Seq<Shown>, depth: nat) -> bool {
    &&& forall|k: int| #![trigger places[k]] 0 <= k < places.len() ==> places[k].depth > depth
    &&& forall|i: int, j: int|
        #![trigger places[i], places[j]]
        0 <= i && j == i + 1 && j < places.len() ==> places[j].depth <= places[i].depth + 1
    &&& places.len() > 0 ==> places[0].depth == depth + 1
}

proof fn lemma_nest_from(s: Slots, i: int, depth: nat, last: bool)
    requires
        links_down(s),
        live(s, i),
    ensures
        shown_from(s, i, depth, last).len() > 0,
        shown_from(s, i, depth, last)[0].depth == depth,
        nests(shown_from(s, i, depth, last).drop_first(), depth),
    decreases deeper(s, level(s, i)), 1nat, 0nat,
{
    let all = shown_from(s, i, depth, last);
    if at(s, i).expanded {
        lemma_nest_below(s, i, kids(s, i).len(), depth);
        assert(all.drop_first() =~= shown_below(s, i, kids(s, i).len(), depth));
    } else {
        assert(all.drop_first() =~= Seq::<Shown>::empty());
    }
}

proof fn lemma_nest_below(s: Slots, i: int, n: nat, depth: nat)
    requires
        links_down(s),
        live(s, i),
        n <= kids(s, i).len(),
    ensures
        nests(shown_below(s, i, n, depth), depth),
    decreases deeper(s, level(s, i)), 0nat, n,
{
    if n > 0 {
        let c = kids(s, i)[n - 1] as int;
        assert(one_below(at(s, c).path@, at(s, i).path@));
        lemma_deeper_step(s, level(s, i), c);
        lemma_nest_below(s, i, (n - 1) as nat, depth);
        lemma_nest_from(s, c, depth + 1, n == kids(s, i).len());
        let a = shown_below(s, i, (n - 1) as nat, depth);
        let b = shown_from(s, c, depth + 1, n == kids(s, i).len());
        let all = shown_below(s, i, n, depth);
        assert(all == a + b);
        assert forall|k: int| #![trigger all[k]] 0 <= k < all.len() implies all[k].depth > depth by {
            if k < a.len() {
                assert(all[k] == a[k]);
            } else if k > a.len() {
                assert(all[k] == b.drop_first()[k - a.len() - 1]);
            }
        }
        assert forall|x: int, y: int|
            #![trigger all[x], all[y]]
            0 <= x && y == x + 1 && y < all.len() implies all[y].depth <= all[x].depth + 1 by {
            if y < a.len() {
                assert(all[x] == a[x] && all[y] == a[y]);
            } else if y == a.len() {
                assert(all[y] == b[0]);
            } else {
                assert(all[y] == b.drop_first()[y - a.len() - 1]);
                if x > a.len() {
                    assert(all[x] == b.drop_first()[x - a.len() - 1]);
                }
            }
        }
    }
}

/// The rows of a tree are nested, below its root.
pub proof fn lemma_rows_are_nested(s: Slots, root: int, rows: Seq<Row>)
    requires
        is_tree(s, root),
        rows_of(s, shown(s, root), rows),
    ensures
        rows.len() > 0,
        rows[0].depth == 0,
        nested(rows),
{
    lemma_nest_from(s, root, 0, true);
    let places = shown(s, root);
    assert(row_of(s, places[0], rows[0]));
    assert forall|i: int, j: int|
        #![trigger rows[i], rows[j]]
        0 <= i && j == i + 1 && j < rows.len() implies 1 <= rows[j].depth <= rows[i].depth + 1 by {
        assert(row_of(s, places[i], rows[i]));
        assert(row_of(s, places[j], rows[j]));
        let below = places.drop_first();
        assert(places[j] == below[j - 1]);
        if i > 0 {
            assert(places[i] == below[i - 1]);
        }
    }
}

/// The row at a level that row `i` is below: the closest one before it.
pub open spec fn row_above(rows: Seq<Row>, i: int, level: int) -> int
    decreases i,
{
    if i <= 0 {
        0
    } else if rows[i - 1].depth == level {
        i - 1
    } else {
        row_above(rows, i - 1, level)
    }
}

/// In print, what stands in front of a row says of each directory it is in
/// whether more follow there: one guide for every level above it, blank exactly
/// where the row above at that level was the last.
pub proof fn lemma_guides_show_what_follows(rows: Seq<Row>, i: int)
    requires
        nested(rows),
        rows.len() > 0,
        rows[0].depth == 0,
        1 <= i < rows.len(),
    ensures
        first_of(lasts_above(rows, i), rows[i].depth - 1).len() == rows[i].depth - 1,
        forall|l: int|
            #![trigger lasts_above(rows, i)[l - 1]]
            1 <= l < rows[i].depth ==> lasts_above(rows, i)[l - 1] == rows[row_above(rows, i, l)].last,
{
    lemma_lasts_above(rows, i);
    assert(rows[i].depth <= rows[i - 1].depth + 1);
}

proof fn lemma_lasts_above(rows: Seq<Row>, i: int)
    requires
        nested(rows),
        rows.len() > 0,
        rows[0].depth == 0,
        1 <= i <= rows.len(),
    ensures
        lasts_above(rows, i).len() == rows[i - 1].depth,
        forall|l: int|
            #![trigger lasts_above(rows, i)[l - 1]]
            1 <= l <= rows[i - 1].depth ==> lasts_above(rows, i)[l - 1] == rows[row_above(rows, i, l)].last,
    decreases i,
{
    if i > 1 {
        lemma_lasts_above(rows, i - 1);
        let row = rows[i - 1];
        let before = lasts_above(rows, i - 1);
        let kept = first_of(before, row.depth - 1);
        assert(1 <= row.depth <= rows[i - 2].depth + 1);
        assert(kept.len() == row.depth - 1);
        assert forall|l: int| #![trigger lasts_above(rows, i)[l - 1]] 1 <= l <= row.depth implies lasts_above(rows, i)[l - 1]
            == rows[row_above(rows, i, l)].last by {
            if l < row.depth {
                assert(lasts_above(rows, i)[l - 1] == before[l - 1]);
                assert(row_above(rows, i, l) == row_above(rows, i - 1, l));
            }
        }
    }
}

proof fn lemma_guides_line_up(lasts: Seq<bool>, k: int)
    requires
        0 <= k < lasts.len(),
    ensures
        guides(lasts).len() == 4 * lasts.len(),
        guides(lasts).subrange(4 * k, 4 * k + 4) == (if lasts[k] {
            "    "@
        } else {
            "│   "@
        }),
    decreases lasts.len(),
{
    reveal_strlit("    ");
    reveal_strlit("│   ");
    reveal_with_fuel(guides, 2);
    let front = lasts.drop_last();
    if front.len() > 0 {
        lemma_guides_line_up(
            front,
            if k < front.len() {
                k
            } else {
                0
            },
        );
    }
    if k < front.len() {
        assert(guides(lasts).subrange(4 * k, 4 * k + 4) =~= guides(front).subrange(4 * k, 4 * k + 4));
    } else {
        assert(guides(lasts).subrange(4 * k, 4 * k + 4) =~= if lasts[k] {
            "    "@
        } else {
            "│   "@
        });
    }
}

/// The closest row before one at a level further out is of the directory that it
/// is in at that level.
proof fn lemma_row_above_is_an_ancestor(s: Slots, root: int, rows: Seq<Row>, i: int, l: int)
    requires
        is_tree(s, root),
        rows_of(s, shown(s, root), rows),
        1 <= i < rows.len(),
        1 <= l < rows[i].depth,
    ensures
        1 <= row_above(rows, i, l) < i,
        rows[row_above(rows, i, l)].depth == l,
        rows[row_above(rows, i, l)].path@.names == rows[i].path@.names.take(
            rows[row_above(rows, i, l)].path@.names.len() as int,
        ),
        rows[row_above(rows, i, l)].path@.names.len() <= rows[i].path@.names.len(),
    decreases rows[i].depth,
{
    let places = shown(s, root);
    let x = lemma_rows_rebuild_paths(s, root, i);
    assert(parent_row(s, places, i, x));
    assert(row_of(s, places[i], rows[i]) && row_of(s, places[x], rows[x]));
    lemma_rows_are_nested(s, root, rows);
    assert forall|m: int| #![trigger rows[m]] x < m < i implies rows[m].depth >= rows[i].depth by {
        assert(row_of(s, places[m], rows[m]));
        assert(places[m].depth >= places[i].depth);
    }
    assert(rows[x].path@.names =~= rows[i].path@.names.take(rows[x].path@.names.len() as int));
    if l == rows[x].depth {
        lemma_row_above_skips(rows, i, x + 1, l);
    } else {
        lemma_row_above_skips(rows, i, x + 1, l);
        assert(row_above(rows, x + 1, l) == row_above(rows, x, l));
        assert(x >= 1);
        lemma_row_above_is_an_ancestor(s, root, rows, x, l);
        let j = row_above(rows, x, l);
        let n = rows[j].path@.names.len() as int;
        assert(rows[x].path@.names.take(n) =~= rows[i].path@.names.take(n));
    }
}

proof fn lemma_row_above_skips(rows: Seq<Row>, i: int, x: int, l: int)
    requires
        1 <= x <= i <= rows.len(),
        forall|m: int| #![trigger rows[m]] x <= m < i ==> rows[m].depth > l,
    ensures
        row_above(rows, i, l) == row_above(rows, x, l),
    decreases i - x,
{
    if x < i {
        assert(rows[i - 1].depth > l);
        lemma_row_above_skips(rows, i - 1, x, l);
    }
}

/// In print, what stands directly in front of a name is a corner exactly where no
/// later row is of something in the same directory, and a tee otherwise,
/// whatever kind of thing the row is. In front of that stand four columns for
/// each directory the row is further in: a line down where more follow in the
/// directory that holds it at that level, and blanks where none do. After it
/// come the name, the mark of its kind and what was left out.
pub proof fn lemma_what_stands_before_a_name(s: Slots, root: int, rows: Seq<Row>, i: int, l: int)
    requires
        is_tree(s, root),
        rows_of(s, shown(s, root), rows),
        1 <= i < rows.len(),
    ensures
        ({
            let n = 4 * (rows[i].depth - 1);
            let line = printed_row(rows, i);
            &&& rows[i].depth >= 1
            &&& n + 4 <= line.len()
            &&& line.subrange(n, n + 4) == (if more_follow(rows, i) {
                "├── "@
            } else {
                "└── "@
            })
            &&& line.skip(n + 4) == rows[i].name@ + rows[i].kind.spec_suffix() + rest_of(rows[i])
            &&& 1 <= l < rows[i].depth ==> {
                let above = row_above(rows, i, l);
                &&& 1 <= above < i
                &&& rows[above].depth == l
                &&& rows[above].path@.names == rows[i].path@.names.take(rows[above].path@.names.len() as int)
                &&& line.subrange(4 * (l - 1), 4 * l) == (if more_follow(rows, above) {
                    "│   "@
                } else {
                    "    "@
                })
            }
        }),
{
    reveal_strlit("    ");
    reveal_strlit("│   ");
    reveal_strlit("├── ");
    reveal_strlit("└── ");
    lemma_rows_are_nested(s, root, rows);
    assert(rows[i - 1].depth + 1 >= rows[i].depth >= 1);
    lemma_the_last_has_nothing_after_it(s, root, rows, i);
    lemma_guides_show_what_follows(rows, i);
    let lasts = first_of(lasts_above(rows, i), rows[i].depth - 1);
    let front = guides(lasts);
    let n = 4 * (rows[i].depth - 1);
    let line = printed_row(rows, i);
    let mark = if rows[i].last {
        "└── "@
    } else {
        "├── "@
    };
    let rest = rows[i].name@ + rows[i].kind.spec_suffix() + rest_of(rows[i]);
    if lasts.len() > 0 {
        lemma_guides_line_up(lasts, 0);
    }
    assert(front.len() == n);
    assert(line =~= front + mark + rest);
    assert(line.subrange(n, n + 4) =~= mark);
    assert(line.skip(n + 4) =~= rest);
    if 1 <= l < rows[i].depth {
        lemma_row_above_is_an_ancestor(s, root, rows, i, l);
        let above = row_above(rows, i, l);
        lemma_the_last_has_nothing_after_it(s, root, rows, above);
        lemma_lasts_above(rows, i);
        assert(lasts_above(rows, i)[l - 1] == rows[above].last);
        assert(lasts[l - 1] == rows[above].last);
        lemma_guides_line_up(lasts, l - 1);
        assert(line.subrange(4 * (l - 1), 4 * l) =~= front.subrange(4 * (l - 1), 4 * (l - 1) + 4));
    }
}

/// What is left out of a directory is said on its own line, with the number, and
/// nothing is said where nothing is.
pub proof fn lemma_what_is_left_out_is_said(row: Row)
    ensures
        row.omitted == 0 ==> rest_of(row).len() == 0,
        row.omitted > 0 ==> rest_of(row) == "  … "@ + decimal(row.omitted as nat) + " more not listed"@,
{
}

// -- where to listen ------------------------------------------------------

/// What an address comes to, before anything is looked up.
#[derive(Debug, PartialEq, Eq)]
pub enum Listen {
    /// A port of this machine's own.
    Loopback(u16),
    /// A host and a port, still to be resolved.
    Named(String),
}

/// Where the last colon is.
pub open spec fn last_colon(s: Seq<char>) -> int
    decreases s.len(),
{
    if s.len() == 0 {
        -1
    } else if s.last() == ':' {
        s.len() - 1
    } else {
        last_colon(s.drop_last())
    }
}

proof fn lemma_last_colon(s: Seq<char>, i: int)
    requires
        -1 <= i < s.len(),
        i >= 0 ==> s[i] == ':',
        forall|k: int| i < k < s.len() ==> #[trigger] s[k] != ':',
    ensures
        last_colon(s) == i,
    decreases s.len(),
{
    if s.len() > 0 && s.last() != ':' {
        let t = s.drop_last();
        assert forall|k: int| i < k < t.len() implies #[trigger] t[k] != ':' by {
            assert(t[k] == s[k]);
        }
        lemma_last_colon(t, i);
    }
}

/// Whether a text has a port behind its last colon.
pub open spec fn has_port(s: Seq<char>) -> bool {
    last_colon(s) >= 0 && number_in(s.skip(last_colon(s) + 1), u16::MAX as nat) is Some
}

/// The host and port an address names: `:11711` is one of this machine's own.
pub open spec fn named_address(s: Seq<char>) -> Seq<char> {
    if s.len() > 0 && s[0] == ':' {
        "127.0.0.1:"@ + s.skip(1)
    } else {
        s
    }
}

/// Accepts `11711`, `:11711`, `0.0.0.0:11711` and `localhost:11711`. What has no
/// port is refused, with the reason; whether a host has an address is for the
/// resolver to say.
pub fn parse_addr(s: &str) -> (r: Result<Listen, String>)
    ensures
        match number_in(s@, u16::MAX as nat) {
            Some(port) => r matches Ok(Listen::Loopback(p)) && p == port,
            None => if has_port(named_address(s@)) {
                r matches Ok(Listen::Named(name)) && name@ == named_address(s@)
            } else {
                r matches Err(reason) && reason@ == "cannot resolve "@ + named_address(s@)
            },
        },
{
    let chars: Vec<char> = chars_of(s);
    if let Some(port) = port_number(&chars) {
        return Ok(Listen::Loopback(port));
    }
    let mut name: String = String::new();
    if chars.len() > 0 && chars[0] == ':' {
        name.append("127.0.0.1:");
        let mut rest: Vec<char> = chars;
        rest.remove(0);
        assert(rest@ =~= s@.skip(1));
        name.append(string_of(&rest).as_str());
        assert(name@ =~= named_address(s@));
    } else {
        name.append(s);
        assert(name@ =~= named_address(s@));
    }
    if ends_in_port(name.as_str()) {
        Ok(Listen::Named(name))
    } else {
        let mut reason: String = "cannot resolve ".to_owned();
        reason.append(name.as_str());
        Err(reason)
    }
}

/// The port some text spells.
fn port_number(chars: &Vec<char>) -> (r: Option<u16>)
    ensures
        match r {
            Some(port) => number_in(chars@, u16::MAX as nat) == Some(port as nat),
            None => number_in(chars@, u16::MAX as nat) is None,
        },
{
    match ascii_of(chars) {
        Some(bytes) => match parse_uint(bytes.as_slice(), 65535) {
            Some(n) => Some(n as u16),
            None => None,
        },
        None => None,
    }
}

/// Whether a text has a port behind its last colon.
fn ends_in_port(s: &str) -> (r: bool)
    ensures
        r == has_port(s@),
{
    let chars: Vec<char> = chars_of(s);
    let mut i: usize = chars.len();
    while i > 0 && chars[i - 1] != ':'
        invariant
            i <= chars@.len(),
            chars@ == s@,
            forall|k: int| i <= k < chars@.len() ==> #[trigger] chars@[k] != ':',
        decreases i,
    {
        i -= 1;
    }
    proof {
        lemma_last_colon(s@, i - 1);
    }
    if i == 0 {
        return false;
    }
    let mut port: Vec<char> = Vec::new();
    let mut k: usize = i;
    while k < chars.len()
        invariant
            i <= k <= chars@.len(),
            port@ == chars@.subrange(i as int, k as int),
        decreases chars.len() - k,
    {
        port.push(chars[k]);
        k += 1;
        assert(port@ =~= chars@.subrange(i as int, k as int));
    }
    assert(port@ =~= s@.skip(i as int));
    port_number(&port).is_some()
}

/// What to say where the server is not listening on the port it was asked for.
pub fn port_note(wanted: u16, bound: u16) -> (r: Option<String>)
    ensures
        match r {
            Some(s) => bound != wanted && s@ == "treex: port "@ + decimal(wanted as nat) + " was taken, using "@
                + decimal(bound as nat),
            None => bound == wanted,
        },
{
    if bound == wanted {
        return None;
    }
    let mut s: String = "treex: port ".to_owned();
    s.append(decimal_of(wanted as u64).as_str());
    s.append(" was taken, using ");
    s.append(decimal_of(bound as u64).as_str());
    Some(s)
}

/// What to say where the server can be reached from other machines. The exposure
/// is disclosure, not damage: treex never writes to the filesystem.
pub fn exposure_note(host: &str, loopback: bool) -> (r: Option<String>)
    ensures
        match r {
            Some(s) => !loopback && s@ == "treex: warning — "@ + host@
                + " is reachable off this machine and there is no authentication. Anyone who can reach this port can read your whole directory structure."@,
            None => loopback,
        },
{
    if loopback {
        return None;
    }
    let mut s: String = "treex: warning — ".to_owned();
    s.append(host);
    s.append(
        " is reachable off this machine and there is no authentication. Anyone who can reach this port can read your whole directory structure.",
    );
    Some(s)
}

// -- which way to run -----------------------------------------------------

#[derive(Debug, Clone, Copy, PartialEq, Eq, Structural)]
pub enum Mode {
    /// Print the tree and be done.
    Print,
    /// Serve, with no terminal UI.
    Headless,
    /// The terminal UI, with or without a server beside it.
    Interactive,
    /// Neither a terminal nor a server was asked for.
    NothingToDo,
}

/// Which way to run. A pipe or a redirect cannot host a terminal UI; falling
/// back to the printed tree is what makes `treex | less` and
/// `treex > structure.txt` do the obvious thing.
pub fn mode(print: bool, no_tui: bool, web: bool, terminal: bool) -> (m: Mode)
    ensures
        m == Mode::Print <==> print || (!terminal && !web),
        m == Mode::Headless <==> !print && web && (no_tui || !terminal),
        m == Mode::NothingToDo <==> !print && !web && no_tui && terminal,
        m == Mode::Interactive <==> !print && !no_tui && terminal,
{
    if print || (!terminal && !web) {
        Mode::Print
    } else if no_tui || !terminal {
        if web {
            Mode::Headless
        } else {
            Mode::NothingToDo
        }
    } else {
        Mode::Interactive
    }
}

// -- laws -----------------------------------------------------------------

/// A number within reach is a port of this machine's own; a host, a colon and
/// such a number name an address as they stand; a colon and a number name one of
/// this machine's own.
pub proof fn lemma_what_an_address_is(host: Seq<char>, port: u16)
    ensures
        number_in(decimal(port as nat), 65535) == Some(port as nat),
        number_in(host.push(':') + decimal(port as nat), 65535) is None,
        has_port(host.push(':') + decimal(port as nat)),
        host.len() > 0 && host[0] != ':' ==> named_address(host.push(':') + decimal(port as nat)) == host.push(':') + decimal(
            port as nat,
        ),
        named_address(seq![':'] + decimal(port as nat)) == "127.0.0.1:"@ + decimal(port as nat),
{
    let d = decimal(port as nat);
    lemma_numbers_are_digits(port as nat);
    lemma_numbers_read_back(port as nat, 65535);
    let s = host.push(':') + d;
    let i = host.len() as int;
    assert(s[i] == ':');
    assert forall|k: int| i < k < s.len() implies #[trigger] s[k] != ':' by {
        assert(s[k] == d[k - i - 1]);
    }
    lemma_last_colon(s, i);
    assert(s.skip(i + 1) =~= d);
    lemma_only_digits_are_numbers(s, 65535, i);
    assert((seq![':'] + d).skip(1) =~= d);
}

/// What has no colon has no port, nor has what has anything but a number behind
/// its last colon.
pub proof fn lemma_what_has_no_port(host: Seq<char>, tail: Seq<char>, k: int)
    requires
        forall|j: int| #![trigger host[j]] 0 <= j < host.len() ==> host[j] != ':',
        forall|j: int| #![trigger tail[j]] 0 <= j < tail.len() ==> tail[j] != ':',
        0 <= k < tail.len(),
        !('0' <= tail[k] <= '9'),
        k > 0 || tail[0] != '+',
    ensures
        !has_port(host),
        !has_port(host.push(':') + tail),
        !has_port(host.push(':')),
{
    lemma_last_colon(host, -1);
    let s = host.push(':') + tail;
    let i = host.len() as int;
    assert forall|j: int| i < j < s.len() implies #[trigger] s[j] != ':' by {
        assert(s[j] == tail[j - i - 1]);
    }
    lemma_last_colon(s, i);
    assert(s.skip(i + 1) =~= tail);
    lemma_only_digits_are_numbers(tail, 65535, k);
    lemma_last_colon(host.push(':'), i);
    assert(host.push(':').skip(i + 1) =~= Seq::<char>::empty());
}

/// Printing comes first and wins over everything; without a terminal there is no
/// terminal UI; a server runs by itself where there is no terminal UI to run
/// beside; and a redirected run that asked for nothing prints.
pub proof fn lemma_which_way_to_run(print: bool, no_tui: bool, web: bool, terminal: bool, m: Mode)
    requires
        call_ensures(mode, (print, no_tui, web, terminal), m),
    ensures
        print ==> m == Mode::Print,
        !print && !terminal ==> m != Mode::Interactive,
        !print && terminal && !no_tui ==> m == Mode::Interactive,
        !print && web && (no_tui || !terminal) ==> m == Mode::Headless,
        !print && !web && !terminal ==> m == Mode::Print,
        !print && !web && terminal && no_tui ==> m == Mode::NothingToDo,
        m == Mode::Headless ==> web,
{
}

/// The first line is where the tree is, with what was left out of it.
pub proof fn lemma_the_first_line_in_print(snapshot: &Snapshot)
    ensures
        snapshot.rows@.len() == 0 ==> printed_root(snapshot) == text_of(snapshot.root@.text()),
        snapshot.rows@.len() > 0 && snapshot.rows@[0].omitted == 0 ==> printed_root(snapshot) == text_of(snapshot.root@.text()),
        snapshot.rows@.len() > 0 && snapshot.rows@[0].omitted > 0 ==> printed_root(snapshot) == text_of(snapshot.root@.text())
            + ("  … "@ + decimal(snapshot.rows@[0].omitted as nat) + " more not listed"@),
{
    assert(text_of(snapshot.root@.text()) + Seq::<char>::empty() =~= text_of(snapshot.root@.text()));
}

} // verus!
