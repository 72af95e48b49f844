//! The scroll window.

use vstd::prelude::*;

verus! {

/// The visible window over the buffer, measured in rows from the bottom of
/// the buffer: `reverse_index` is the distance of the window's trailing edge
/// from the newest row, `rows` the number of rows shown.
#[derive(Clone, Copy, Debug, PartialEq, Eq, Structural)]
pub struct Viewport {
    pub reverse_index: usize,
    pub rows: usize,
}

impl Viewport {
    /// The leading edge of the window as a mathematical integer.
    pub open spec fn spec_limit(&self) -> int {
        self.reverse_index + self.rows
    }

    /// A window of `rows` rows whose trailing edge lies `reverse_index` rows
    /// above the bottom of the buffer.
    pub fn new(reverse_index: usize, rows: usize) -> (viewport: Viewport)
        ensures
            viewport.reverse_index == reverse_index,
            viewport.rows == rows,
    {
        Viewport { reverse_index, rows }
    }

    /// The leading edge of the window: the trailing edge plus the rows
    /// shown, where that can be counted in a `usize`.
    pub fn limit(&self) -> (limit: usize)
        requires
            self.spec_limit() <= usize::MAX,
        ensures
            limit == self.spec_limit(),
    {
        self.reverse_index + self.rows
    }
}

} // verus!
