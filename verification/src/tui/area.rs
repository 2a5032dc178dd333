//! Parts of the screen.

use vstd::prelude::*;

verus! {

/// A rectangle of cells.
#[derive(Debug, Clone, Copy, PartialEq, Eq, Structural)]
pub struct Rect {
    pub x: u16,
    pub y: u16,
    pub width: u16,
    pub height: u16,
}

/// A coordinate, which stops where `u16` does.
pub open spec fn capped(n: int) -> int {
    if n > u16::MAX {
        u16::MAX as int
    } else {
        n
    }
}

/// The smaller of two numbers.
pub open spec fn least(a: int, b: int) -> int {
    if a < b {
        a
    } else {
        b
    }
}

/// The larger of two numbers.
pub open spec fn most(a: int, b: int) -> int {
    if a > b {
        a
    } else {
        b
    }
}

/// What is left of `a` once `b` is taken away, and nothing where `b` is more.
pub open spec fn less(a: int, b: int) -> int {
    most(a - b, 0)
}

impl Rect {
    /// The first column past the rectangle.
    pub open spec fn past_right(&self) -> int {
        capped(self.x + self.width)
    }

    /// The first row past the rectangle.
    pub open spec fn past_bottom(&self) -> int {
        capped(self.y + self.height)
    }

    /// Whether a cell is in the rectangle.
    pub open spec fn covers(&self, column: int, row: int) -> bool {
        self.x <= column < self.past_right() && self.y <= row < self.past_bottom()
    }

    /// The cells two rectangles share.
    pub open spec fn shared(&self, other: &Rect) -> Rect {
        let x = most(self.x as int, other.x as int);
        let y = most(self.y as int, other.y as int);
        Rect {
            x: x as u16,
            y: y as u16,
            width: less(least(self.past_right(), other.past_right()), x) as u16,
            height: less(least(self.past_bottom(), other.past_bottom()), y) as u16,
        }
    }

    /// What is inside a border one cell wide.
    pub open spec fn inside(&self) -> Rect {
        Rect {
            x: least(capped(self.x + 1), self.past_right()) as u16,
            y: least(capped(self.y + 1), self.past_bottom()) as u16,
            width: less(self.width as int, 2) as u16,
            height: less(self.height as int, 2) as u16,
        }
    }

    /// A rectangle, cut off where coordinates end.
    pub fn new(x: u16, y: u16, width: u16, height: u16) -> (r: Rect)
        ensures
            r.x == x,
            r.y == y,
            r.width == least(width as int, u16::MAX - x),
            r.height == least(height as int, u16::MAX - y),
    {
        let wide: u16 = u16::MAX - x;
        let tall: u16 = u16::MAX - y;
        Rect {
            x,
            y,
            width: if width < wide { width } else { wide },
            height: if height < tall { height } else { tall },
        }
    }

    /// The first column past the rectangle.
    pub fn right(&self) -> (n: u16)
        ensures
            n == self.past_right(),
    {
        self.x.saturating_add(self.width)
    }

    /// The first row past the rectangle.
    pub fn bottom(&self) -> (n: u16)
        ensures
            n == self.past_bottom(),
    {
        self.y.saturating_add(self.height)
    }

    /// Whether a cell is in the rectangle.
    pub fn contains(&self, column: u16, row: u16) -> (r: bool)
        ensures
            r == self.covers(column as int, row as int),
    {
        self.x <= column && column < self.right() && self.y <= row && row < self.bottom()
    }

    /// The cells two rectangles share.
    pub fn intersection(&self, other: &Rect) -> (r: Rect)
        ensures
            r == self.shared(other),
    {
        let x: u16 = if self.x > other.x { self.x } else { other.x };
        let y: u16 = if self.y > other.y { self.y } else { other.y };
        let right: u16 = if self.right() < other.right() { self.right() } else { other.right() };
        let bottom: u16 = if self.bottom() < other.bottom() { self.bottom() } else { other.bottom() };
        Rect { x, y, width: right.saturating_sub(x), height: bottom.saturating_sub(y) }
    }
}

/// No cells at all.
pub open spec fn nowhere() -> Rect {
    Rect { x: 0, y: 0, width: 0, height: 0 }
}

impl Default for Rect {
    fn default() -> (r: Rect)
        ensures
            r == nowhere(),
    {
        Rect { x: 0, y: 0, width: 0, height: 0 }
    }
}

/// A cell is in what two rectangles share exactly when it is in both.
pub proof fn lemma_shared_cells(a: Rect, b: Rect, column: int, row: int)
    ensures
        a.shared(&b).covers(column, row) <==> a.covers(column, row) && b.covers(column, row),
{
}

/// The parts one above the other that an area comes apart into: the lower one
/// as high as asked, so far as the upper one keeps its least.
pub open spec fn stacked(area: Rect, min: int, length: int) -> (Rect, Rect) {
    let tall = area.past_bottom() - area.y;
    let lower = least(length, less(tall, min));
    let upper = tall - lower;
    (Rect { height: upper as u16, ..area }, Rect { y: (area.y + upper) as u16, height: lower as u16, ..area })
}

/// `ratatui::layout::Layout::split`, on a vertical layout of `Min(min)` above
/// `Length(length)`. Ratatui honours a `Min` before a `Length` and lets a `Min`
/// take what no other constraint claims, so the parts tile the area, the lower
/// one has the length asked for where the upper one can keep its minimum, and
/// gives way where it cannot.
#[verifier::external_body]
pub(crate) fn stack(area: Rect, min: u16, length: u16) -> (parts: (Rect, Rect))
    requires
        min <= i16::MAX,
    ensures
        parts == stacked(area, min as int, length as int),
{
    let whole = ratatui::layout::Rect { x: area.x, y: area.y, width: area.width, height: area.height };
    let limits = [ratatui::layout::Constraint::Min(min), ratatui::layout::Constraint::Length(length)];
    let split = ratatui::layout::Layout::vertical(limits).split(whole);
    let part = |r: ratatui::layout::Rect| Rect { x: r.x, y: r.y, width: r.width, height: r.height };
    (part(split[0]), part(split[1]))
}

/// The parts side by side that an area comes apart into: the left one as wide
/// as asked, so far as the right one keeps its least.
pub open spec fn paired(area: Rect, length: int, min: int) -> (Rect, Rect) {
    let wide = area.past_right() - area.x;
    let left = least(length, less(wide, min));
    (Rect { width: left as u16, ..area }, Rect { x: (area.x + left) as u16, width: (wide - left) as u16, ..area })
}

/// `ratatui::layout::Layout::split`, on a horizontal layout of `Length(length)`
/// beside `Min(min)`: as for [`stack`], with the length on the left.
#[verifier::external_body]
pub(crate) fn pair(area: Rect, length: u16, min: u16) -> (parts: (Rect, Rect))
    requires
        min <= i16::MAX,
    ensures
        parts == paired(area, length as int, min as int),
{
    let whole = ratatui::layout::Rect { x: area.x, y: area.y, width: area.width, height: area.height };
    let limits = [ratatui::layout::Constraint::Length(length), ratatui::layout::Constraint::Min(min)];
    let split = ratatui::layout::Layout::horizontal(limits).split(whole);
    let part = |r: ratatui::layout::Rect| Rect { x: r.x, y: r.y, width: r.width, height: r.height };
    (part(split[0]), part(split[1]))
}

// -- laws -----------------------------------------------------------------

/// A rectangle holds the cells from its corner on, as many across as it is wide
/// and as many down as it is tall, and its inside those that are not at an edge.
pub proof fn lemma_which_cells_a_rectangle_holds(r: Rect, column: int, row: int)
    requires
        r.x + r.width <= u16::MAX,
        r.y + r.height <= u16::MAX,
    ensures
        r.covers(column, row) <==> r.x <= column < r.x + r.width && r.y <= row < r.y + r.height,
        r.inside().covers(column, row) <==> r.x < column < r.x + r.width - 1 && r.y < row < r.y + r.height - 1,
        r.width == 0 || r.height == 0 ==> !r.covers(column, row),
{
}

/// Parts one above the other, and parts side by side, are the whole: every cell
/// of an area is in one of them and in no more than one.
pub proof fn lemma_parts_are_the_whole(area: Rect, min: int, length: int, column: int, row: int)
    requires
        area.x + area.width <= u16::MAX,
        area.y + area.height <= u16::MAX,
        0 <= min <= i16::MAX,
        0 <= length <= u16::MAX,
    ensures
        ({
            let (upper, lower) = stacked(area, min, length);
            let (left, right) = paired(area, length, min);
            &&& area.covers(column, row) <==> upper.covers(column, row) || lower.covers(column, row)
            &&& !(upper.covers(column, row) && lower.covers(column, row))
            &&& area.covers(column, row) <==> left.covers(column, row) || right.covers(column, row)
            &&& !(left.covers(column, row) && right.covers(column, row))
            &&& area.height >= min + length ==> lower.height == length
            &&& area.width >= min + length ==> left.width == length
        }),
{
}

} // verus!
