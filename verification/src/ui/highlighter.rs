//! Where the occurrences of a query fall in a wrapped line.
//!
//! A line wrapped at `width` holds `width` bytes in each row. A line is
//! rendered with a fixed number of rows; an occurrence that starts beyond
//! them counts to the last row, so that a match never leaves its line.

use crate::line::{lemma_occurrences, occurrences, occurs_at, Line};
use crate::ui::display::{DisplayList, DrawCommand};
use vstd::arithmetic::div_mod::lemma_div_is_ordered;
use vstd::prelude::*;
use vstd::string::StringSliceAdditionalSpecFns;

verus! {

/// The row of a line of `height` rows in which byte position `at` falls
/// when the line is wrapped at `width`.
pub open spec fn row_of(at: int, width: int, height: int) -> int {
    if at / width < height {
        at / width
    } else {
        height - 1
    }
}

/// Some occurrence of `needle` in `text` starts in row `row`.
pub open spec fn row_has_occurrence(
    text: Seq<u8>,
    needle: Seq<u8>,
    width: int,
    height: int,
    row: int,
) -> bool {
    exists|at: int| occurs_at(text, needle, at) && row_of(at, width, height) == row
}

/// `rows` lists, in strictly ascending order, exactly the rows in which an
/// occurrence of `needle` starts.
pub open spec fn is_matched_rows(
    rows: Seq<usize>,
    text: Seq<u8>,
    needle: Seq<u8>,
    width: int,
    height: int,
) -> bool {
    &&& forall|j: int, k: int| 0 <= j < k < rows.len() ==> rows[j] < rows[k]
    &&& forall|row: usize|
        rows.contains(row) <==> row_has_occurrence(text, needle, width, height, row as int)
}

/// The command that paints the occurrence at byte position `at` of a line
/// whose first row is row `top` of the screen.
pub open spec fn highlight_command(at: int, width: int, height: int, top: int) -> DrawCommand {
    DrawCommand::Highlight {
        row: (top + row_of(at, width, height)) as i32,
        column: (at % width) as i32,
    }
}

/// The commands that paint every occurrence of `needle` in `text`, first
/// occurrence first.
pub open spec fn highlight_commands(
    text: Seq<u8>,
    needle: Seq<u8>,
    width: int,
    height: int,
    top: int,
) -> Seq<DrawCommand> {
    occurrences(text, needle).map_values(|at: int| highlight_command(at, width, height, top))
}

/// A later position never falls in an earlier row.
pub proof fn lemma_row_of_ordered(a: int, b: int, width: int, height: int)
    requires
        0 <= a <= b,
        width >= 1,
        height >= 1,
    ensures
        0 <= row_of(a, width, height) <= row_of(b, width, height) < height,
{
    lemma_div_is_ordered(a, b, width);
    lemma_div_is_ordered(0, a, width);
}

/// Finds the occurrences of a query in one line wrapped at a given width.
pub struct LineHighlighter<'a> {
    pub line: &'a Line,
    pub container_width: i32,
}

impl<'a> LineHighlighter<'a> {
    /// A highlighter for `line` wrapped at `container_width`.
    pub fn new(line: &'a Line, container_width: i32) -> (highlighter: LineHighlighter<'a>)
        ensures
            highlighter.line == line,
            highlighter.container_width == container_width,
    {
        LineHighlighter { line, container_width }
    }

    /// Adds to `display` one command for each occurrence of `text` in the
    /// line, and returns the rows of the line in which an occurrence
    /// starts, ascending and without repetition. The line takes
    /// `line_height` rows, the first of them row `accumulated_height` of
    /// the screen.
    pub fn print(
        &self,
        text: &str,
        display: &mut DisplayList,
        accumulated_height: i32,
        line_height: i32,
    ) -> (rows: Vec<usize>)
        requires
            self.container_width >= 1,
            line_height >= 1,
            accumulated_height + line_height <= i32::MAX,
        ensures
            is_matched_rows(
                rows@,
                self.line@,
                text.spec_bytes(),
                self.container_width as int,
                line_height as int,
            ),
            final(display)@ == old(display)@ + highlight_commands(
                self.line@,
                text.spec_bytes(),
                self.container_width as int,
                line_height as int,
                accumulated_height as int,
            ),
    {
        let found = self.line.matches_for(text);
        let width = self.container_width as usize;
        let height = line_height as usize;
        let mut rows: Vec<usize> = Vec::new();
        let ghost text_bytes = self.line@;
        let ghost needle = text.spec_bytes();
        let ghost w = self.container_width as int;
        let ghost h = line_height as int;
        let ghost top = accumulated_height as int;
        let ghost before = display@;
        let ghost all = occurrences(text_bytes, needle);
        let ghost paint = |at: int| highlight_command(at, w, h, top);
        proof {
            lemma_occurrences(text_bytes, needle);
            assert(all.take(0).map_values(paint) =~= Seq::<DrawCommand>::empty());
            assert(before + Seq::<DrawCommand>::empty() =~= before);
        }
        let mut k: usize = 0;
        while k < found.len()
            invariant
                w == width >= 1,
                h == height >= 1,
                top == accumulated_height,
                top + h <= i32::MAX,
                w <= i32::MAX,
                h <= i32::MAX,
                paint == |at: int| highlight_command(at, w, h, top),
                all == found@.map_values(|at: usize| at as int),
                forall|i: int, j: int| 0 <= i < j < all.len() ==> all[i] < all[j],
                k <= found@.len(),
                display@ == before + all.take(k as int).map_values(paint),
                forall|i: int, j: int| 0 <= i < j < rows@.len() ==> rows@[i] < rows@[j],
                forall|row: usize|
                    rows@.contains(row) <==> exists|i: int|
                        0 <= i < k && row_of(#[trigger] all[i], w, h) == row,
                k == 0 ==> rows@.len() == 0,
                k > 0 ==> rows@.len() > 0 && rows@[rows@.len() - 1] == row_of(all[k - 1], w, h),
            decreases found@.len() - k,
        {
            let at = found[k];
            let ghost previous = rows@;
            proof {
                assert(all[k as int] == at as int);
                lemma_row_of_ordered(at as int, at as int, w, h);
                if k > 0 {
                    lemma_row_of_ordered(all[k - 1], at as int, w, h);
                }
                assert(0 <= at as int % w < w) by (nonlinear_arith)
                    requires
                        at >= 0,
                        w >= 1,
                ;
            }
            let wrapped = at / width;
            let row = if wrapped < height {
                wrapped
            } else {
                height - 1
            };
            let column = at % width;
            assert(row == row_of(at as int, w, h));
            display.push(
                DrawCommand::Highlight {
                    row: accumulated_height + row as i32,
                    column: column as i32,
                },
            );
            let fresh = rows.len() == 0 || rows[rows.len() - 1] != row;
            if fresh {
                rows.push(row);
            }
            proof {
                assert(all.take(k + 1).map_values(paint) =~= all.take(k as int).map_values(
                    paint,
                ).push(paint(all[k as int])));
                assert(before + all.take(k as int).map_values(paint).push(paint(all[k as int]))
                    =~= (before + all.take(k as int).map_values(paint)).push(
                    paint(all[k as int]),
                ));
                assert forall|r: usize| rows@.contains(r) implies exists|i: int|
                    0 <= i < k + 1 && row_of(#[trigger] all[i], w, h) == r by {
                    if !previous.contains(r) {
                        let j = choose|j: int| 0 <= j < rows@.len() && rows@[j] == r;
                        if j < previous.len() {
                            assert(previous[j] == r);
                        }
                        assert(row_of(all[k as int], w, h) == r);
                    }
                }
                assert forall|r: usize|
                    (exists|i: int| 0 <= i < k + 1 && row_of(#[trigger] all[i], w, h) == r)
                    implies rows@.contains(r) by {
                    let i = choose|i: int| 0 <= i < k + 1 && row_of(#[trigger] all[i], w, h) == r;
                    if i < k {
                        assert(previous.contains(r));
                        let j = choose|j: int| 0 <= j < previous.len() && previous[j] == r;
                        assert(rows@[j] == r);
                    } else {
                        assert(rows@[rows@.len() - 1] == r);
                    }
                }
            }
            k += 1;
        }
        proof {
            assert(all.take(k as int) =~= all);
            assert forall|row: usize|
                row_has_occurrence(text_bytes, needle, w, h, row as int) implies rows@.contains(
                row,
            ) by {
                let at = choose|at: int|
                    occurs_at(text_bytes, needle, at) && row_of(at, w, h) == row as int;
                assert(all.contains(at));
                let i = choose|i: int| 0 <= i < all.len() && all[i] == at;
                assert(row_of(all[i], w, h) == row);
            }
        }
        rows
    }
}

} // verus!
