use vstd::prelude::*;

verus! {

/// A cell position on the terminal.
#[derive(Debug, Clone, Copy, PartialEq, Eq, Structural)]
pub struct Position {
    pub x: u16,
    pub y: u16,
}

impl Position {
    /// The top-left cell.
    pub fn origin() -> (r: Position)
        ensures
            r == (Position { x: 0, y: 0 }),
    {
        Position { x: 0, y: 0 }
    }
}

/// A rectangle of terminal cells.
#[derive(Debug, Clone, Copy, PartialEq, Eq, Structural)]
pub struct Rect {
    pub x: u16,
    pub y: u16,
    pub width: u16,
    pub height: u16,
}

/// `a + b`, or `u16::MAX` where that does not fit.
pub open spec fn sat_add(a: u16, b: u16) -> u16 {
    if a + b > u16::MAX {
        u16::MAX
    } else {
        (a + b) as u16
    }
}

/// `a - b`, or 0 where that is negative.
pub open spec fn sat_sub(a: u16, b: u16) -> u16 {
    if a < b {
        0
    } else {
        (a - b) as u16
    }
}

/// Whether the cell `p` lies inside `r` (the right and bottom edges saturate at `u16::MAX`).
pub open spec fn rect_contains(r: Rect, p: Position) -> bool {
    r.x <= p.x && p.x < sat_add(r.x, r.width) && r.y <= p.y && p.y < sat_add(r.y, r.height)
}

/// The smallest rectangle that covers both `a` and `b`, its far edges saturating at
/// `u16::MAX`.
pub open spec fn rect_union(a: Rect, b: Rect) -> Rect {
    let x1 = if a.x <= b.x { a.x } else { b.x };
    let y1 = if a.y <= b.y { a.y } else { b.y };
    let ra = sat_add(a.x, a.width);
    let rb = sat_add(b.x, b.width);
    let ba = sat_add(a.y, a.height);
    let bb = sat_add(b.y, b.height);
    let x2 = if ra >= rb { ra } else { rb };
    let y2 = if ba >= bb { ba } else { bb };
    Rect { x: x1, y: y1, width: sat_sub(x2, x1), height: sat_sub(y2, y1) }
}

impl Rect {
    /// The empty rectangle at the origin.
    pub fn zero() -> (r: Rect)
        ensures
            r == (Rect { x: 0, y: 0, width: 0, height: 0 }),
    {
        Rect { x: 0, y: 0, width: 0, height: 0 }
    }

    /// The column just right of the rectangle.
    pub fn right(&self) -> (r: u16)
        ensures
            r == sat_add(self.x, self.width),
    {
        self.x.saturating_add(self.width)
    }

    /// The row just below the rectangle.
    pub fn bottom(&self) -> (r: u16)
        ensures
            r == sat_add(self.y, self.height),
    {
        self.y.saturating_add(self.height)
    }

    /// Whether the cell `position` lies inside the rectangle.
    pub fn contains(&self, position: Position) -> (r: bool)
        ensures
            r == rect_contains(*self, position),
    {
        position.x >= self.x && position.x < self.right() && position.y >= self.y && position.y
            < self.bottom()
    }

    /// The smallest rectangle that covers this one and `other`.
    pub fn union(&self, other: Rect) -> (r: Rect)
        ensures
            r == rect_union(*self, other),
    {
        let x1 = if self.x <= other.x { self.x } else { other.x };
        let y1 = if self.y <= other.y { self.y } else { other.y };
        let ra = self.right();
        let rb = other.right();
        let ba = self.bottom();
        let bb = other.bottom();
        let x2 = if ra >= rb { ra } else { rb };
        let y2 = if ba >= bb { ba } else { bb };
        Rect { x: x1, y: y1, width: x2.saturating_sub(x1), height: y2.saturating_sub(y1) }
    }
}

} // verus!
