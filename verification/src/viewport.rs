use crate::direction::Direction;
use vstd::prelude::*;

verus! {

/// A window onto a sequence of rows: the first visible row and column and
/// the visible height and width.
#[derive(Clone, Copy, Debug)]
pub struct Viewport {
    top: usize,
    left: usize,
    height: usize,
    width: usize,
}

/// The abstract state of a viewport: top, left, height, width.
pub type ViewportView = (usize, usize, usize, usize);

/// `a - b`, or zero when `b` exceeds `a`.
pub open spec fn sat_sub(a: int, b: int) -> int {
    if a >= b { a - b } else { 0 }
}

/// `a + b`, or `usize::MAX` when the sum exceeds it.
pub open spec fn sat_add(a: int, b: int) -> int {
    if a + b <= usize::MAX { a + b } else { usize::MAX as int }
}

/// The distance between two values.
pub open spec fn dist(a: int, b: int) -> int {
    if a >= b { a - b } else { b - a }
}

/// The top a viewport moves to so that `index` becomes visible: unchanged
/// when it is already between the top and the bottom; the index itself when
/// it is nearer the top than the bottom; otherwise the top that puts it on
/// the last visible row.
pub open spec fn jump_top(top: int, height: int, index: int) -> int {
    if top <= index < top + height {
        top
    } else if dist(top, index) < dist(top + height, index) {
        index
    } else {
        sat_add(sat_sub(index, height), 1)
    }
}

impl View for Viewport {
    type V = ViewportView;

    closed spec fn view(&self) -> ViewportView {
        (self.top, self.left, self.height, self.width)
    }
}

impl Viewport {
    /// A viewport at the origin with no extent.
    pub fn new() -> (r: Self)
        ensures
            r@ == (0usize, 0usize, 0usize, 0usize),
    {
        Viewport { top: 0, left: 0, height: 0, width: 0 }
    }

    /// The visible height.
    pub fn height(&self) -> (r: usize)
        ensures
            r == self@.2,
    {
        self.height
    }

    /// The visible width.
    pub fn width(&self) -> (r: usize)
        ensures
            r == self@.3,
    {
        self.width
    }

    /// Sets the visible height and width.
    pub fn fit_view(&mut self, height: usize, width: usize)
        ensures
            final(self)@ == (old(self)@.0, old(self)@.1, height, width),
    {
        self.height = height;
        self.width = width;
    }

    /// The row just past the last visible one.
    pub fn bottom(&self) -> (r: usize)
        requires
            self@.0 + self@.2 <= usize::MAX,
        ensures
            r == self@.0 + self@.2,
    {
        self.top + self.height
    }

    /// Keeps the viewport within `end_index` rows: a top at or past the end
    /// moves to the last row, and the height shrinks to the row count.
    pub fn clamp(&mut self, end_index: usize)
        ensures
            final(self)@.0 == (if old(self)@.0 >= end_index {
                sat_sub(end_index as int, 1)
            } else {
                old(self)@.0 as int
            }),
            final(self)@.2 == (if old(self)@.2 > end_index {
                end_index
            } else {
                old(self)@.2
            }),
            final(self)@.1 == old(self)@.1,
            final(self)@.3 == old(self)@.3,
    {
        if self.top >= end_index {
            self.top = end_index.saturating_sub(1);
        }
        if self.height > end_index {
            self.height = end_index;
        }
    }

    /// Puts `index` at the top.
    pub fn top_to(&mut self, index: usize)
        ensures
            final(self)@ == (index, old(self)@.1, old(self)@.2, old(self)@.3),
    {
        self.top = index;
    }

    /// Moves the top the least way that makes `index` visible, keeping the
    /// height.
    pub fn jump_to(&mut self, index: usize)
        requires
            old(self)@.0 + old(self)@.2 <= usize::MAX,
        ensures
            final(self)@.0 == jump_top(old(self)@.0 as int, old(self)@.2 as int, index as int),
            final(self)@.1 == old(self)@.1,
            final(self)@.2 == old(self)@.2,
            final(self)@.3 == old(self)@.3,
    {
        let bottom = self.bottom();
        if !(self.top <= index && index < bottom) {
            let to_top = if self.top >= index {
                self.top - index
            } else {
                index - self.top
            };
            let to_bottom = if bottom >= index {
                bottom - index
            } else {
                index - bottom
            };
            if to_top < to_bottom {
                self.top = index;
            } else {
                self.top = index.saturating_sub(self.height).saturating_add(1);
            }
        }
    }

    /// Moves the top by `delta` rows, stopping at zero and at `usize::MAX`.
    pub fn pan_vertical(&mut self, direction: Direction, delta: usize)
        ensures
            final(self)@.0 == (match direction {
                Direction::Back => sat_sub(old(self)@.0 as int, delta as int),
                Direction::Next => sat_add(old(self)@.0 as int, delta as int),
            }),
            final(self)@.1 == old(self)@.1,
            final(self)@.2 == old(self)@.2,
            final(self)@.3 == old(self)@.3,
    {
        self.top = match direction {
            Direction::Back => self.top.saturating_sub(delta),
            Direction::Next => self.top.saturating_add(delta),
        }
    }

    /// Moves the left column by `delta`, stopping at zero and at
    /// `usize::MAX`.
    pub fn pan_horizontal(&mut self, direction: Direction, delta: usize)
        ensures
            final(self)@.1 == (match direction {
                Direction::Back => sat_sub(old(self)@.1 as int, delta as int),
                Direction::Next => sat_add(old(self)@.1 as int, delta as int),
            }),
            final(self)@.0 == old(self)@.0,
            final(self)@.2 == old(self)@.2,
            final(self)@.3 == old(self)@.3,
    {
        self.left = match direction {
            Direction::Back => self.left.saturating_sub(delta),
            Direction::Next => self.left.saturating_add(delta),
        }
    }

    /// The first visible column.
    pub fn left(&self) -> (r: usize)
        ensures
            r == self@.1,
    {
        self.left
    }

    /// The first visible row.
    pub fn top(&self) -> (r: usize)
        ensures
            r == self@.0,
    {
        self.top
    }
}

/// Jumping to a row makes it visible: it lies between the new top and the
/// bottom, for a viewport with at least one row.
pub proof fn law_jump_brings_into_view(top: int, height: int, index: int)
    requires
        0 <= top,
        0 < height,
        top + height <= usize::MAX,
        0 <= index <= usize::MAX,
    ensures
        jump_top(top, height, index) <= index < jump_top(top, height, index) + height,
{
}

} // verus!
