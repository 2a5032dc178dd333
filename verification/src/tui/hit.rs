//! Mapping a mouse position onto the tree.

use vstd::prelude::*;

use super::area::Rect;
use super::render::{row_spans, twistie_text, Theme, INDENT, TWISTIE_WIDTH};
use super::style::{lemma_spelled_add, repeated, spelled, SpanView};
use crate::shown::Row;
use crate::tree::Kind;

verus! {

#[derive(Debug, Clone, Copy, PartialEq, Eq, Structural)]
pub enum Hit {
    /// The ▸/▾ marker: always toggles, never just selects.
    Twistie(usize),
    Name(usize),
    /// Inside the tree pane but past the end of a row, or outside it entirely.
    Nothing,
}

/// What a cell of the tree pane belongs to, with the rows from `offset` on in
/// it.
pub open spec fn cell_hit(inner: Rect, offset: int, rows: Seq<Row>, col: int, row: int) -> Hit {
    let index = offset + (row - inner.y);
    if !inner.covers(col, row) || index >= rows.len() {
        Hit::Nothing
    } else {
        let marker = rows[index].depth * INDENT;
        if rows[index].kind == Kind::Dir && marker <= col - inner.x < marker + TWISTIE_WIDTH {
            Hit::Twistie(index as usize)
        } else {
            Hit::Name(index as usize)
        }
    }
}

pub fn hit(inner: Rect, offset: usize, rows: &[Row], col: u16, row: u16) -> (h: Hit)
    ensures
        h == cell_hit(inner, offset as int, rows@, col as int, row as int),
{
    if !inner.contains(col, row) {
        return Hit::Nothing;
    }
    let down: usize = (row - inner.y) as usize;
    if offset >= rows.len() || down >= rows.len() - offset {
        return Hit::Nothing;
    }
    let index: usize = offset + down;
    let entry: &Row = &rows[index];
    let x: usize = (col - inner.x) as usize;
    if entry.is_dir() && x / 2 == entry.depth {
        return Hit::Twistie(index);
    }
    // Anywhere else on the line (the name, or the empty space past it) picks
    // the row, which is what every GUI file tree does and what a finger on a
    // phone will mostly produce. There is deliberately no width test: it would
    // have to measure display columns rather than characters, since a CJK
    // filename is twice as wide as its character count.
    Hit::Name(index)
}

/// A click lands on what was aimed at: the marker of a directory is drawn in
/// exactly the characters of its row that answer as the marker.
pub proof fn lemma_marker_is_where_it_is_drawn(inner: Rect, offset: int, rows: Seq<Row>, theme: &Theme, col: int, row: int)
    requires
        inner.covers(col, row),
        0 <= offset,
        offset + (row - inner.y) < rows.len(),
        rows.len() <= usize::MAX,
    ensures
        ({
            let index = offset + (row - inner.y);
            let entry = rows[index];
            let drawn = spelled(row_spans(&entry, theme));
            let from = entry.depth * INDENT;
            &&& from + TWISTIE_WIDTH <= drawn.len()
            &&& drawn.subrange(from, from + TWISTIE_WIDTH) == twistie_text(&entry)
            &&& cell_hit(inner, offset, rows, col, row) == Hit::Twistie(index as usize) <==> entry.kind == Kind::Dir
                && from <= col - inner.x < from + TWISTIE_WIDTH
        }),
{
    reveal_strlit("  ");
    reveal_strlit("▾ ");
    reveal_strlit("▸ ");
    reveal_strlit("│ ");
    let entry = rows[offset + (row - inner.y)];
    let all = row_spans(&entry, theme);
    let marker = twistie_text(&entry);
    lemma_guides(entry.depth as nat);
    let n = if entry.depth > 0 {
        1int
    } else {
        0
    };
    let front = all.take(n);
    let rest = all.skip(n);
    assert(all =~= front + rest);
    lemma_spelled_add(front, rest);
    assert(rest =~= seq![rest[0]] + rest.skip(1));
    lemma_spelled_add(seq![rest[0]], rest.skip(1));
    reveal_with_fuel(spelled, 2);
    assert(seq![rest[0]].drop_last() =~= Seq::<SpanView>::empty());
    assert(spelled(seq![rest[0]]) =~= marker);
    if n == 1 {
        assert(front.drop_last() =~= Seq::<SpanView>::empty());
        assert(spelled(front) =~= repeated("│ "@, entry.depth as nat));
    } else {
        assert(front =~= Seq::<SpanView>::empty());
    }
    let from = entry.depth * INDENT;
    assert(spelled(all).subrange(from, from + TWISTIE_WIDTH) =~= marker);
}

proof fn lemma_guides(n: nat)
    ensures
        repeated("│ "@, n).len() == n * INDENT,
    decreases n,
{
    reveal_strlit("│ ");
    if n > 0 {
        lemma_guides((n - 1) as nat);
    }
}

// -- laws -----------------------------------------------------------------

/// A cell belongs to the row that is drawn on its line: the marker where it is
/// on the marker of a directory and the name anywhere else on that line, past
/// its end too. Outside the pane and below the last row it belongs to nothing.
pub proof fn lemma_a_cell_belongs_to_its_line(inner: Rect, offset: int, rows: Seq<Row>, k: int, across: int)
    requires
        inner.x + inner.width <= u16::MAX,
        inner.y + inner.height <= u16::MAX,
        0 <= offset,
        rows.len() <= usize::MAX,
        0 <= k < inner.height,
        0 <= across < inner.width,
    ensures
        ({
            let h = cell_hit(inner, offset, rows, inner.x + across, inner.y + k);
            &&& offset + k >= rows.len() ==> h == Hit::Nothing
            &&& offset + k < rows.len() ==> {
                let row = rows[offset + k];
                let from = 2 * row.depth;
                &&& row.kind == Kind::Dir && (across == from || across == from + 1) ==> h == Hit::Twistie((offset + k) as usize)
                &&& row.kind != Kind::Dir || across < from || across > from + 1 ==> h == Hit::Name((offset + k) as usize)
            }
        }),
        cell_hit(inner, offset, rows, inner.x - 1, inner.y + k) == Hit::Nothing,
        cell_hit(inner, offset, rows, inner.x + inner.width, inner.y + k) == Hit::Nothing,
        cell_hit(inner, offset, rows, inner.x + across, inner.y + inner.height) == Hit::Nothing,
{
}

} // verus!
