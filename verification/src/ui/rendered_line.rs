//! Rendered lines, the buffer that holds them, and the queries that place
//! matches inside the scroll window.
//!
//! All scroll arithmetic is made in one coordinate: the distance of a row
//! from the bottom of the buffer, counted in rows. The newest row has
//! distance 1.

use crate::line::{is_substring, occurs_at, Line};
use crate::ui::display::{DisplayList, DrawCommand};
use crate::ui::highlighter::{
    highlight_commands, is_matched_rows, lemma_row_of_ordered, row_of, LineHighlighter,
};
use crate::ui::printer::Viewport;
use vstd::prelude::*;
use vstd::string::StringSliceAdditionalSpecFns;

verus! {

/// What a rendered line is to the contracts: its bytes, the rows it takes
/// when wrapped, and the rows that hold a match of the active query.
pub struct RenderedLineView {
    pub text: Seq<u8>,
    pub height: int,
    pub found_matches: Option<Seq<usize>>,
}

/// Row offsets of one line: at least one, strictly ascending, all inside the
/// line's height.
pub open spec fn valid_rows(rows: Seq<usize>, height: int) -> bool {
    &&& rows.len() >= 1
    &&& forall|j: int, k: int| 0 <= j < k < rows.len() ==> rows[j] < rows[k]
    &&& forall|k: int| 0 <= k < rows.len() ==> rows[k] < height
}

impl RenderedLineView {
    /// The line takes at least one row, and its match rows, where it has
    /// any, are valid for its height.
    pub open spec fn wf(self) -> bool {
        &&& 1 <= self.height <= i32::MAX
        &&& self.found_matches matches Some(rows) ==> valid_rows(rows, self.height)
    }
}

/// The rows of one line as the contracts see them.
pub open spec fn rows_view(found_matches: Option<Vec<usize>>) -> Option<Seq<usize>> {
    match found_matches {
        Some(rows) => Some(rows@),
        None => None,
    }
}

/// Whether a line of this text matches the query `needle`: the query
/// occurs in the text, literally and case-sensitively. The empty query is
/// no query and matches no line.
pub open spec fn is_query_match(text: Seq<u8>, needle: Seq<u8>) -> bool {
    needle.len() > 0 && is_substring(text, needle)
}

/// What a search asks to be painted: a matching line is painted again and
/// then each occurrence is highlighted; a line that matches no longer is
/// painted again once, to take its highlights away; any other line is left
/// alone. The first row of the line is row `top` of the screen.
pub open spec fn search_commands(
    line: RenderedLineView,
    needle: Seq<u8>,
    width: int,
    top: int,
) -> Seq<DrawCommand> {
    if is_query_match(line.text, needle) {
        seq![DrawCommand::Line { row: top as i32 }] + highlight_commands(
            line.text,
            needle,
            width,
            line.height,
            top,
        )
    } else if line.found_matches is Some {
        seq![DrawCommand::Line { row: top as i32 }]
    } else {
        Seq::empty()
    }
}

/// What a search leaves in a line: text and height stay, and the line holds
/// the rows in which the query starts, or none where it does not match.
pub open spec fn searched(
    before: RenderedLineView,
    after: RenderedLineView,
    needle: Seq<u8>,
    width: int,
) -> bool {
    &&& after.text == before.text
    &&& after.height == before.height
    &&& after.found_matches is Some <==> is_query_match(before.text, needle)
    &&& after.found_matches matches Some(rows) ==> is_matched_rows(
        rows,
        before.text,
        needle,
        width,
        before.height,
    )
}

/// A search that misses repaints a line at most once: searched again with
/// a query that misses, the line asks for nothing.
pub proof fn lemma_miss_repaints_once(
    before: RenderedLineView,
    after: RenderedLineView,
    first: Seq<u8>,
    second: Seq<u8>,
    width: int,
    top: int,
)
    requires
        searched(before, after, first, width),
        !is_query_match(before.text, first),
        !is_query_match(before.text, second),
    ensures
        search_commands(after, second, width, top) == Seq::<DrawCommand>::empty(),
{
}

/// The rows in which a query that occurs in the line starts are valid match
/// rows of the line.
pub proof fn lemma_matched_rows_valid(
    rows: Seq<usize>,
    text: Seq<u8>,
    needle: Seq<u8>,
    width: int,
    height: int,
)
    requires
        width >= 1,
        1 <= height <= usize::MAX,
        is_substring(text, needle),
        is_matched_rows(rows, text, needle, width, height),
    ensures
        valid_rows(rows, height),
{
    let at = choose|at: int| occurs_at(text, needle, at);
    lemma_row_of_ordered(at, at, width, height);
    let first = row_of(at, width, height) as usize;
    assert(rows.contains(first));
    assert forall|k: int| 0 <= k < rows.len() implies rows[k] < height by {
        assert(rows.contains(rows[k]));
        let from = choose|from: int|
            occurs_at(text, needle, from) && row_of(from, width, height)
                == rows[k] as int;
        lemma_row_of_ordered(from, from, width, height);
    }
}

/// One logical line with the rows it takes when wrapped and the rows that
/// hold a match of the active query.
#[derive(Debug)]
pub struct RenderedLine {
    pub line: Line,
    pub height: i32,
    pub found_matches: Option<Vec<usize>>,
}

impl View for RenderedLine {
    type V = RenderedLineView;

    open spec fn view(&self) -> RenderedLineView {
        RenderedLineView {
            text: self.line@,
            height: self.height as int,
            found_matches: rows_view(self.found_matches),
        }
    }
}

impl Clone for RenderedLine {
    fn clone(&self) -> (copy: RenderedLine)
        ensures
            copy@ == self@,
    {
        let found_matches = match &self.found_matches {
            Some(rows) => {
                let copied = rows.clone();
                assert(copied@ =~= rows@);
                Some(copied)
            },
            None => None,
        };
        RenderedLine { line: self.line.clone(), height: self.height, found_matches }
    }
}

impl RenderedLine {
    /// The height is at least one row, and the match rows, where present,
    /// are valid for it.
    pub open spec fn wf(&self) -> bool {
        self@.wf()
    }

    /// A line of `height` rows with the match rows given.
    pub fn new(line: Line, height: i32, found_matches: Option<Vec<usize>>) -> (rendered:
        RenderedLine)
        ensures
            rendered.line == line,
            rendered.height == height,
            rendered.found_matches == found_matches,
    {
        RenderedLine { line, height, found_matches }
    }

    /// Whether the line is well formed, for a caller that built it by hand.
    pub fn is_well_formed(&self) -> (valid: bool)
        ensures
            valid == self.wf(),
    {
        if self.height < 1 {
            return false;
        }
        match &self.found_matches {
            None => true,
            Some(rows) => {
                if rows.len() == 0 {
                    return false;
                }
                let height = self.height as usize;
                let mut k: usize = 0;
                while k < rows.len()
                    invariant
                        k <= rows@.len(),
                        height == self.height >= 1,
                        self@.found_matches == Some(rows@),
                        forall|i: int, j: int| 0 <= i < j < k ==> rows@[i] < rows@[j],
                        forall|i: int| 0 <= i < k ==> rows@[i] < height,
                    decreases rows@.len() - k,
                {
                    if rows[k] >= height {
                        return false;
                    }
                    if k > 0 && rows[k - 1] >= rows[k] {
                        return false;
                    }
                    k += 1;
                }
                true
            },
        }
    }

    /// The number of rows of the line that hold a match.
    pub fn match_count(&self) -> (count: usize)
        requires
            self.found_matches is Some,
        ensures
            count == self@.found_matches.unwrap().len(),
    {
        self.found_matches.as_ref().unwrap().len()
    }

    /// Has the whole line painted again, starting at row
    /// `accumulated_height` of the screen.
    pub fn print(&self, display: &mut DisplayList, accumulated_height: i32)
        ensures
            final(display)@ == old(display)@.push(DrawCommand::Line { row: accumulated_height }),
    {
        display.push(DrawCommand::Line { row: accumulated_height });
    }

    /// Has every occurrence of `text` in the line highlighted and returns
    /// the rows of the line in which an occurrence starts; nothing where
    /// `text` does not occur.
    pub fn highlight(
        &self,
        text: &str,
        display: &mut DisplayList,
        container_width: i32,
        accumulated_height: i32,
    ) -> (found: Option<Vec<usize>>)
        requires
            self.height >= 1,
            container_width >= 1,
            accumulated_height + self.height <= i32::MAX,
        ensures
            found is Some <==> is_substring(self.line@, text.spec_bytes()),
            found matches Some(rows) ==> (is_matched_rows(
                rows@,
                self.line@,
                text.spec_bytes(),
                container_width as int,
                self.height as int,
            ) && valid_rows(rows@, self.height as int)),
            final(display)@ == old(display)@ + highlight_commands(
                self.line@,
                text.spec_bytes(),
                container_width as int,
                self.height as int,
                accumulated_height as int,
            ),
    {
        let highlighter = LineHighlighter::new(&self.line, container_width);
        let rows = highlighter.print(text, display, accumulated_height, self.height);
        proof {
            let bytes = self.line@;
            let needle = text.spec_bytes();
            let width = container_width as int;
            let height = self.height as int;
            if is_substring(bytes, needle) {
                lemma_matched_rows_valid(rows@, bytes, needle, width, height);
            } else if rows@.len() > 0 {
                assert(rows@.contains(rows@[0]));
            }
        }
        if rows.len() == 0 {
            None
        } else {
            Some(rows)
        }
    }

    /// Replaces the match rows of the line and tells whether they differ
    /// from those it had.
    pub fn update_found_matches(&mut self, found_matches: Option<Vec<usize>>) -> (changed: bool)
        ensures
            final(self).line == old(self).line,
            final(self).height == old(self).height,
            final(self)@.found_matches == rows_view(found_matches),
            changed == (old(self)@.found_matches != rows_view(found_matches)),
    {
        if self.found_matches != found_matches {
            self.found_matches = found_matches;
            true
        } else {
            false
        }
    }

    /// Searches the line for `text`, literally and case-sensitively, and
    /// tells whether it matches. A line that matches is painted again and
    /// its occurrences are highlighted; its match rows become the rows in
    /// which an occurrence starts. A line that does not match loses its
    /// match rows and, if it had any, is painted again once. The empty text
    /// is no query: no line matches it.
    pub fn search(
        &mut self,
        text: &str,
        display: &mut DisplayList,
        container_width: i32,
        accumulated_height: i32,
    ) -> (is_match: bool)
        requires
            old(self).wf(),
            container_width >= 1,
            accumulated_height + old(self).height <= i32::MAX,
        ensures
            is_match == is_query_match(old(self).line@, text.spec_bytes()),
            final(self).line == old(self).line,
            searched(old(self)@, final(self)@, text.spec_bytes(), container_width as int),
            final(self).wf(),
            is_match ==> (final(self)@.found_matches matches Some(rows) && valid_rows(
                rows,
                old(self).height as int,
            )),
            !is_match ==> final(self)@.found_matches is None,
            final(display)@ == old(display)@ + search_commands(
                old(self)@,
                text.spec_bytes(),
                container_width as int,
                accumulated_height as int,
            ),
            !is_match && old(self)@.found_matches is Some ==> final(display)@ == old(display)@.push(
                DrawCommand::Line { row: accumulated_height },
            ),
            !is_match && old(self)@.found_matches is None ==> final(display)@ == old(display)@,
    {
        let is_match = text.as_bytes().len() > 0 && self.line.contains(text);
        let mut found_matches: Option<Vec<usize>> = None;
        let ghost before = display@;
        if is_match {
            self.print(display, accumulated_height);
            found_matches = self.highlight(text, display, container_width, accumulated_height);
            proof {
                let painted = highlight_commands(
                    self.line@,
                    text.spec_bytes(),
                    container_width as int,
                    self.height as int,
                    accumulated_height as int,
                );
                assert(before.push(DrawCommand::Line { row: accumulated_height }) + painted
                    =~= before + (seq![DrawCommand::Line { row: accumulated_height }] + painted));
            }
        }
        if self.update_found_matches(found_matches) && !is_match {
            self.print(display, accumulated_height);
            assert(before.push(DrawCommand::Line { row: accumulated_height }) =~= before
                + seq![DrawCommand::Line { row: accumulated_height }]);
        } else if !is_match {
            assert(before =~= before + Seq::<DrawCommand>::empty());
        }
        is_match
    }
}

/// A position among the matches of a buffer: a line, and the index of one
/// of the match rows of that line.
#[derive(Clone, Copy, Debug, PartialEq, Eq, Structural)]
pub struct MatchedLine {
    pub line: usize,
    pub match_index: usize,
}

impl MatchedLine {
    /// The match `match_index` of line `line`.
    pub fn new(line: usize, match_index: usize) -> (cursor: MatchedLine)
        ensures
            cursor.line == line,
            cursor.match_index == match_index,
    {
        MatchedLine { line, match_index }
    }
}

/// The rows taken by the lines `from, .., to - 1` together.
pub open spec fn heights(lines: Seq<RenderedLineView>, from: int, to: int) -> int
    decreases to - from,
{
    if from >= to {
        0
    } else {
        heights(lines, from, to - 1) + lines[to - 1].height
    }
}

/// A range of lines takes as many rows as its two parts together.
pub proof fn lemma_heights_split(lines: Seq<RenderedLineView>, from: int, mid: int, to: int)
    requires
        from <= mid <= to,
    ensures
        heights(lines, from, to) == heights(lines, from, mid) + heights(lines, mid, to),
    decreases to - mid,
{
    if mid < to {
        lemma_heights_split(lines, from, mid, to - 1);
    }
}

/// Lines of positive height: a range takes at least one row per line.
pub proof fn lemma_heights_positive(lines: Seq<RenderedLineView>, from: int, to: int)
    requires
        0 <= from <= to <= lines.len(),
        forall|i: int| 0 <= i < lines.len() ==> (#[trigger] lines[i]).wf(),
    ensures
        heights(lines, from, to) >= to - from,
    decreases to - from,
{
    if from < to {
        lemma_heights_positive(lines, from, to - 1);
    }
}

/// The rendered lines of one pane, oldest first.
#[derive(Debug)]
pub struct RenderedLineCollection {
    pub entries: Vec<RenderedLine>,
}

impl View for RenderedLineCollection {
    type V = Seq<RenderedLineView>;

    open spec fn view(&self) -> Seq<RenderedLineView> {
        self.entries@.map_values(|entry: RenderedLine| entry@)
    }
}

impl Clone for RenderedLineCollection {
    fn clone(&self) -> (copy: RenderedLineCollection)
        ensures
            copy@ == self@,
    {
        let mut entries: Vec<RenderedLine> = Vec::new();
        let mut i: usize = 0;
        while i < self.entries.len()
            invariant
                i <= self.entries@.len(),
                entries@.len() == i,
                forall|k: int| 0 <= k < i ==> entries@[k]@ == self.entries@[k]@,
            decreases self.entries@.len() - i,
        {
            entries.push(self.entries[i].clone());
            i += 1;
        }
        let copy = RenderedLineCollection { entries };
        assert(copy@ =~= self@);
        copy
    }
}

impl std::ops::Index<usize> for RenderedLineCollection {
    type Output = RenderedLine;

    /// The line at `index`.
    fn index(&self, index: usize) -> (entry: &RenderedLine)
        ensures
            *entry == self.entries@[index as int],
    {
        &self.entries[index]
    }
}

impl vstd::std_specs::core::IndexSpecImpl<usize> for RenderedLineCollection {
    /// An index names a line only where it lies below the buffer's length.
    open spec fn index_req(&self, index: &usize) -> bool {
        *index < self@.len()
    }
}

impl RenderedLineCollection {
    /// Every line is well formed and the rows of all lines together can be
    /// counted in an `i32`.
    pub open spec fn wf(&self) -> bool {
        &&& forall|i: int| 0 <= i < self@.len() ==> (#[trigger] self@[i]).wf()
        &&& heights(self@, 0, self@.len() as int) <= i32::MAX
    }

    /// The rows of all lines together.
    pub open spec fn spec_height(&self) -> int {
        heights(self@, 0, self@.len() as int)
    }

    /// The rows of the first `index` lines; of all lines where there are
    /// fewer.
    pub open spec fn spec_height_up_to_index(&self, index: int) -> int {
        heights(self@, 0, if index <= self@.len() { index } else { self@.len() as int })
    }

    /// The rows of the last `count` lines; of all lines where there are
    /// fewer.
    pub open spec fn spec_last_lines_height(&self, count: int) -> int {
        heights(
            self@,
            if count <= self@.len() { self@.len() - count } else { 0 },
            self@.len() as int,
        )
    }

    /// Line `line` exists and carries a match.
    pub open spec fn has_matches(&self, line: int) -> bool {
        0 <= line < self@.len() && self@[line].found_matches is Some
    }

    /// `cursor` names a match that the buffer holds.
    pub open spec fn is_match(&self, cursor: MatchedLine) -> bool {
        &&& self.has_matches(cursor.line as int)
        &&& cursor.match_index < self@[cursor.line as int].found_matches.unwrap().len()
    }

    /// The distance in rows from the bottom of the buffer to the row of a
    /// match: the rows from its line to the end, less its offset in the line.
    pub open spec fn spec_buffer_reverse_index(&self, line_index: int, match_index: int) -> int {
        heights(self@, line_index, self@.len() as int)
            - self@[line_index].found_matches.unwrap()[match_index]
    }

    /// The row of the match lies inside the window, both edges included.
    pub open spec fn in_viewport(&self, cursor: MatchedLine, viewport: Viewport) -> bool {
        viewport.reverse_index <= self.spec_buffer_reverse_index(
            cursor.line as int,
            cursor.match_index as int,
        ) <= viewport.spec_limit()
    }

    /// `cursor` is the visible match closest to the bottom: it lies inside
    /// the window, and no other match inside the window lies lower.
    pub open spec fn is_viewport_match(&self, viewport: Viewport, cursor: MatchedLine) -> bool {
        &&& self.is_match(cursor)
        &&& self.in_viewport(cursor, viewport)
        &&& forall|other: MatchedLine|
            #![trigger self.is_match(other)]
            self.is_match(other) && self.in_viewport(other, viewport)
                ==> self.spec_buffer_reverse_index(cursor.line as int, cursor.match_index as int)
                <= self.spec_buffer_reverse_index(other.line as int, other.match_index as int)
    }

    /// `cursor` names the last match row of a line that carries a match.
    pub open spec fn is_last_row(&self, cursor: MatchedLine) -> bool {
        &&& self.has_matches(cursor.line as int)
        &&& cursor.match_index == self@[cursor.line as int].found_matches.unwrap().len() - 1
    }

    /// `cursor` is the match closest to the bottom of the buffer: the last
    /// row of the last line that carries a match.
    pub open spec fn is_last_match(&self, cursor: MatchedLine) -> bool {
        &&& self.is_last_row(cursor)
        &&& forall|k: int| cursor.line < k < self@.len() ==> !self.has_matches(k)
    }

    /// `cursor` is the last row of the first line after `from` that carries
    /// a match.
    pub open spec fn is_next_match(&self, from: int, cursor: MatchedLine) -> bool {
        &&& from < cursor.line
        &&& self.is_last_row(cursor)
        &&& forall|k: int| from < k < cursor.line ==> !self.has_matches(k)
    }

    /// `cursor` is the last row of the nearest line before `from` that
    /// carries a match.
    pub open spec fn is_previous_match(&self, from: int, cursor: MatchedLine) -> bool {
        &&& cursor.line < from
        &&& self.is_last_row(cursor)
        &&& forall|k: int| cursor.line < k < from ==> !self.has_matches(k)
    }

    /// No line holds a match: no query is active.
    pub open spec fn is_idle(&self) -> bool {
        forall|line: int| !self.has_matches(line)
    }

    /// A buffer without lines.
    pub fn default() -> (buffer: RenderedLineCollection)
        ensures
            buffer@ == Seq::<RenderedLineView>::empty(),
            buffer.wf(),
    {
        let buffer = RenderedLineCollection { entries: Vec::new() };
        assert(buffer@ =~= Seq::<RenderedLineView>::empty());
        buffer
    }

    /// Appends a line at the end.
    pub fn create(&mut self, line: Line, height: i32, found_matches: Option<Vec<usize>>)
        requires
            old(self).wf(),
            height >= 1,
            found_matches matches Some(rows) ==> valid_rows(rows@, height as int),
            old(self).spec_height() + height <= i32::MAX,
        ensures
            final(self)@ == old(self)@.push(
                RenderedLine { line, height, found_matches }@,
            ),
            final(self).wf(),
    {
        let entry = RenderedLine::new(line, height, found_matches);
        self.entries.push(entry);
        proof {
            assert(self@ =~= old(self)@.push(entry@));
            lemma_heights_prefix(old(self)@, self@, old(self)@.len() as int);
        }
    }

    /// Whether the buffer is well formed, for a caller that built it by
    /// hand.
    pub fn is_well_formed(&self) -> (valid: bool)
        ensures
            valid == self.wf(),
    {
        let length = self.entries.len();
        let mut rows: i32 = 0;
        let mut i: usize = 0;
        while i < length
            invariant
                i <= length == self@.len(),
                forall|k: int| 0 <= k < i ==> (#[trigger] self@[k]).wf(),
                0 <= rows == heights(self@, 0, i as int),
            decreases length - i,
        {
            let entry = &self.entries[i];
            assert(self@[i as int] == entry@);
            if !entry.is_well_formed() {
                return false;
            }
            if entry.height > i32::MAX - rows {
                proof {
                    if forall|k: int| 0 <= k < self@.len() ==> (#[trigger] self@[k]).wf() {
                        lemma_heights_split(self@, 0, i + 1, length as int);
                        lemma_heights_positive(self@, i + 1, length as int);
                    }
                }
                return false;
            }
            rows = rows + entry.height;
            i += 1;
        }
        true
    }

    /// Searches every line for `text`. Tells whether any line matches, and
    /// what each line asks to be painted, line by line. Line `i` is painted
    /// from the row that the lines before it leave free. The empty text
    /// ends the search: no line matches it, so every line loses its match
    /// rows, and each line that held some is painted again.
    pub fn search(&mut self, text: &str, container_width: i32) -> (result: (
        bool,
        Vec<DisplayList>,
    ))
        requires
            old(self).wf(),
            container_width >= 1,
        ensures
            final(self).wf(),
            final(self)@.len() == old(self)@.len(),
            forall|i: int|
                0 <= i < old(self)@.len() ==> searched(
                    old(self)@[i],
                    #[trigger] final(self)@[i],
                    text.spec_bytes(),
                    container_width as int,
                ),
            text.spec_bytes().len() == 0 ==> final(self).is_idle(),
            result.0 == !final(self).is_idle(),
            result.1@.len() == old(self)@.len(),
            forall|i: int|
                0 <= i < old(self)@.len() ==> (#[trigger] result.1@[i])@ == search_commands(
                    old(self)@[i],
                    text.spec_bytes(),
                    container_width as int,
                    heights(old(self)@, 0, i),
                ),
    {
        let ghost before = self@;
        let ghost needle = text.spec_bytes();
        let ghost width = container_width as int;
        let length = self.entries.len();
        let mut painted: Vec<DisplayList> = Vec::new();
        let mut found = false;
        let mut top: i32 = 0;
        let mut i: usize = 0;
        while i < length
            invariant
                before == old(self)@,
                before.len() == length == self@.len(),
                needle == text.spec_bytes(),
                width == container_width >= 1,
                old(self).wf(),
                i <= length,
                top == heights(before, 0, i as int),
                forall|k: int|
                    0 <= k < i ==> searched(before[k], #[trigger] self@[k], needle, width),
                forall|k: int| 0 <= k < i ==> (#[trigger] self@[k]).wf(),
                forall|k: int| i <= k < length ==> #[trigger] self@[k] == before[k],
                found == exists|k: int| 0 <= k < i && (#[trigger] self@[k]).found_matches is Some,
                painted@.len() == i,
                forall|k: int|
                    0 <= k < i ==> (#[trigger] painted@[k])@ == search_commands(
                        before[k],
                        needle,
                        width,
                        heights(before, 0, k),
                    ),
            decreases length - i,
        {
            let ghost lines = self@;
            proof {
                assert(before[i as int].wf());
                assert(lines[i as int] == before[i as int]);
                assert(self.entries@[i as int]@ == lines[i as int]);
                lemma_heights_split(before, 0, i as int, length as int);
                lemma_heights_split(before, i as int, i + 1, length as int);
                lemma_heights_positive(before, i + 1, length as int);
                assert(heights(before, i as int, i + 1) == before[i as int].height) by {
                    assert(heights(before, i as int, i as int) == 0);
                }
            }
            let height = self.entries[i].height;
            let mut display = DisplayList::new();
            let matched = self.entries[i].search(text, &mut display, container_width, top);
            if matched {
                found = true;
            }
            proof {
                let grown = self@;
                assert(display@ =~= search_commands(before[i as int], needle, width, top as int));
                assert(grown.len() == length);
                assert(grown[i as int] == self.entries@[i as int]@);
                assert forall|k: int| 0 <= k < length && k != i implies #[trigger] grown[k]
                    == lines[k] by {
                    assert(grown[k] == self.entries@[k]@);
                }
                assert(matched == grown[i as int].found_matches is Some);
                if found && !matched {
                    let k = choose|k: int|
                        0 <= k < i && (#[trigger] lines[k]).found_matches is Some;
                    assert(grown[k].found_matches is Some);
                }
            }
            painted.push(display);
            top = top + height;
            i += 1;
        }
        proof {
            let after = self@;
            assert forall|from: int, to: int| 0 <= from <= to <= length implies heights(
                after,
                from,
                to,
            ) == heights(before, from, to) by {
                lemma_heights_same(before, after, from, to);
            }
            if found {
                let k = choose|k: int|
                    0 <= k < length && (#[trigger] after[k]).found_matches is Some;
                assert(self.has_matches(k));
            }
        }
        (found, painted)
    }

    /// The lines that contain `text`, in their order, as a buffer of its
    /// own. The buffer itself stays as it is.
    pub fn matching(&mut self, text: &str) -> (subset: RenderedLineCollection)
        ensures
            *final(self) == *old(self),
            subset@ == old(self)@.filter(
                |line: RenderedLineView| is_substring(line.text, text.spec_bytes()),
            ),
            old(self).wf() ==> subset.wf(),
    {
        let mut entries: Vec<RenderedLine> = Vec::new();
        let ghost needle = text.spec_bytes();
        let ghost keep = |line: RenderedLineView| is_substring(line.text, needle);
        let ghost lines = self@;
        proof {
            reveal(Seq::filter);
            assert(lines.take(0).filter(keep) =~= Seq::<RenderedLineView>::empty());
        }
        let mut i: usize = 0;
        while i < self.entries.len()
            invariant
                lines == self@,
                needle == text.spec_bytes(),
                keep == |line: RenderedLineView| is_substring(line.text, needle),
                i <= self.entries@.len() == lines.len(),
                entries@.map_values(|entry: RenderedLine| entry@) =~= lines.take(i as int).filter(
                    keep,
                ),
                self.wf() ==> {
                    &&& forall|k: int| 0 <= k < entries@.len() ==> (#[trigger] entries@[k])@.wf()
                    &&& heights(
                        entries@.map_values(|entry: RenderedLine| entry@),
                        0,
                        entries@.len() as int,
                    ) <= heights(lines, 0, i as int)
                },
            decreases lines.len() - i,
        {
            let entry = &self.entries[i];
            let ghost kept = entries@.map_values(|entry: RenderedLine| entry@);
            proof {
                assert(lines[i as int] == entry@);
                assert(lines.take(i + 1) =~= lines.take(i as int).push(entry@));
                lines.take(i as int).lemma_filter_push(entry@, keep);
                if self.wf() {
                    assert(lines[i as int].wf());
                }
            }
            if entry.line.contains(text) {
                entries.push(entry.clone());
                proof {
                    let grown = entries@.map_values(|entry: RenderedLine| entry@);
                    assert(grown =~= kept.push(entry@));
                    lemma_heights_prefix(kept, grown, kept.len() as int);
                }
            }
            i += 1;
        }
        let subset = RenderedLineCollection { entries };
        proof {
            assert(lines.take(i as int) =~= lines);
        }
        subset
    }

    /// The rows of all lines together.
    pub fn height(&self) -> (rows: i32)
        requires
            self.wf(),
        ensures
            rows == self.spec_height(),
    {
        self.height_between(0, self.entries.len())
    }

    /// Removes every line.
    pub fn clear(&mut self)
        ensures
            final(self)@ == Seq::<RenderedLineView>::empty(),
            final(self).wf(),
    {
        self.entries.clear();
        assert(self@ =~= Seq::<RenderedLineView>::empty());
    }

    /// The number of lines.
    pub fn len(&self) -> (count: usize)
        ensures
            count == self@.len(),
    {
        self.entries.len()
    }

    /// Whether the buffer holds no line.
    pub fn is_empty(&self) -> (empty: bool)
        ensures
            empty == (self@.len() == 0),
    {
        self.entries.len() == 0
    }

    /// The rows of the first `index` lines: the distance of line `index`
    /// from the top of the buffer.
    pub fn height_up_to_index(&self, index: usize) -> (rows: i32)
        requires
            self.wf(),
        ensures
            rows == self.spec_height_up_to_index(index as int),
    {
        let count = self.entries.len();
        self.height_between(0, if index <= count { index } else { count })
    }

    /// The rows of the last `count` lines.
    pub fn last_lines_height(&self, count: usize) -> (rows: i32)
        requires
            self.wf(),
        ensures
            rows == self.spec_last_lines_height(count as int),
    {
        let length = self.entries.len();
        self.height_between(if count <= length { length - count } else { 0 }, length)
    }

    /// The distance in rows from the bottom of the buffer to the row of the
    /// match `match_index` of line `line_index`.
    pub fn buffer_reverse_index(&self, line_index: usize, match_index: usize) -> (distance: i32)
        requires
            self.wf(),
            self.is_match(MatchedLine { line: line_index, match_index }),
        ensures
            distance == self.spec_buffer_reverse_index(line_index as int, match_index as int),
            1 <= distance <= self.spec_height(),
    {
        let entry = &self.entries[line_index];
        let rows = entry.found_matches.as_ref().unwrap();
        let offset = rows[match_index];
        proof {
            let cursor = MatchedLine { line: line_index, match_index };
            assert(self@[line_index as int] == entry@);
            assert(entry@.wf());
            lemma_row_bounds(*self, cursor);
        }
        self.height_between(line_index, self.entries.len()) - offset as i32
    }

    /// Whether the row of the match lies inside the window, both edges
    /// included. The rows from the line of the match to the end of the
    /// buffer are counted only until the match is known to lie above the
    /// window.
    pub fn is_match_in_viewport(&self, matched_line: MatchedLine, viewport: Viewport) -> (visible:
        bool)
        requires
            self.wf(),
            self.is_match(matched_line),
        ensures
            visible == self.in_viewport(matched_line, viewport),
    {
        let length = self.entries.len();
        let entry = &self.entries[matched_line.line];
        let offset = entry.found_matches.as_ref().unwrap()[matched_line.match_index];
        proof {
            assert(self@[matched_line.line as int] == entry@);
            assert(entry@.wf());
            lemma_row_bounds(*self, matched_line);
        }
        let mut through: i32 = 0;
        let mut i: usize = matched_line.line;
        while i < length
            invariant
                self.wf(),
                matched_line.line <= i <= length == self@.len(),
                self.is_match(matched_line),
                offset == self@[matched_line.line as int].found_matches.unwrap()[
                    matched_line.match_index as int
                ],
                0 <= through == heights(self@, matched_line.line as int, i as int),
                through <= heights(self@, matched_line.line as int, length as int) <= i32::MAX,
            decreases length - i,
        {
            proof {
                assert(self@[i as int].wf());
                lemma_heights_split(self@, matched_line.line as int, i + 1, length as int);
                lemma_heights_positive(self@, i + 1, length as int);
            }
            through = through + self.entries[i].height;
            let distance = through as usize;
            if distance > offset && distance - offset > viewport.reverse_index && distance - offset
                - viewport.reverse_index > viewport.rows {
                return false;
            }
            i += 1;
        }
        let row = through as usize - offset;
        row >= viewport.reverse_index && row - viewport.reverse_index <= viewport.rows
    }

    /// The visible match closest to the bottom of the buffer, if any match
    /// is visible. Lines are read from the newest upward, and reading stops
    /// at the leading edge of the window.
    pub fn viewport_match(&self, viewport: &Viewport) -> (found: Option<MatchedLine>)
        requires
            self.wf(),
        ensures
            match found {
                Some(cursor) => self.is_viewport_match(*viewport, cursor),
                None => forall|other: MatchedLine| #[trigger]
                    self.is_match(other) ==> !self.in_viewport(other, *viewport),
            },
    {
        let length = self.entries.len();
        let mut below: i32 = 0;
        let mut i: usize = length;
        while i > 0
            invariant
                self.wf(),
                i <= length == self@.len(),
                below == heights(self@, i as int, length as int),
                0 <= below,
                forall|other: MatchedLine| #[trigger]
                    self.is_match(other) && other.line >= i ==> !self.in_viewport(
                        other,
                        *viewport,
                    ),
            decreases i,
        {
            i -= 1;
            let entry = &self.entries[i];
            proof {
                assert(self@[i as int] == entry@);
                assert(entry@.wf());
                lemma_heights_split(self@, 0, i as int, length as int);
                lemma_heights_split(self@, i as int, i + 1, length as int);
                lemma_heights_positive(self@, 0, i as int);
                assert(heights(self@, i as int, i + 1) == entry.height) by {
                    assert(heights(self@, i as int, i as int) == 0);
                }
            }
            let through: i32 = below + entry.height;
            match &entry.found_matches {
                Some(rows) => {
                    let mut j: usize = rows.len();
                    while j > 0
                        invariant
                            self.wf(),
                            i < length == self@.len(),
                            self@[i as int].found_matches == Some(rows@),
                            j <= rows@.len(),
                            valid_rows(rows@, self@[i as int].height),
                            self@[i as int].height <= through,
                            through == heights(self@, i as int, length as int),
                            forall|other: MatchedLine| #[trigger]
                                self.is_match(other) && other.line > i ==> !self.in_viewport(
                                    other,
                                    *viewport,
                                ),
                            forall|k: int|
                                j <= k < rows@.len() ==> through - #[trigger] rows@[k]
                                    < viewport.reverse_index,
                        decreases j,
                    {
                        j -= 1;
                        let row = (through - rows[j] as i32) as usize;
                        if row >= viewport.reverse_index {
                            let cursor = MatchedLine::new(i, j);
                            proof {
                                assert forall|other: MatchedLine| #[trigger]
                                    self.is_match(other) && (other.line < i || (other.line == i
                                        && other.match_index < j)) implies row
                                    < self.spec_buffer_reverse_index(
                                    other.line as int,
                                    other.match_index as int,
                                ) by {
                                    lemma_rows_descend(*self, other, cursor);
                                }
                            }
                            if row - viewport.reverse_index <= viewport.rows {
                                return Some(cursor);
                            } else {
                                return None;
                            }
                        }
                    }
                },
                None => {},
            }
            below = through;
            if below as usize >= viewport.reverse_index && below as usize - viewport.reverse_index
                >= viewport.rows {
                proof {
                    assert forall|other: MatchedLine| #[trigger]
                        self.is_match(other) && other.line < i implies !self.in_viewport(
                        other,
                        *viewport,
                    ) by {
                        lemma_row_bounds(*self, other);
                        lemma_heights_split(self@, other.line + 1, i as int, length as int);
                        lemma_heights_positive(self@, other.line + 1, i as int);
                    }
                }
                return None;
            }
        }
        None
    }

    /// The match closest to the bottom of the buffer. Some line has to hold
    /// a match, as after a search that found one.
    pub fn last_match(&self) -> (cursor: MatchedLine)
        requires
            self.wf(),
            !self.is_idle(),
        ensures
            self.is_last_match(cursor),
    {
        let mut i: usize = self.entries.len();
        loop
            invariant
                self.wf(),
                i <= self@.len(),
                !self.is_idle(),
                forall|k: int| i <= k < self@.len() ==> !self.has_matches(k),
            decreases i,
        {
            if i == 0 {
                proof {
                    let line = choose|line: int| self.has_matches(line);
                    assert(!self.has_matches(line));
                }
            }
            i -= 1;
            match self.last_row_of(i) {
                Some(cursor) => {
                    return cursor;
                },
                None => {},
            }
        }
    }

    /// The first match after line `current_index`, if there is one.
    pub fn next_match(&self, current_index: usize) -> (found: Option<MatchedLine>)
        requires
            self.wf(),
        ensures
            match found {
                Some(cursor) => self.is_next_match(current_index as int, cursor),
                None => forall|k: int| current_index < k < self@.len() ==> !self.has_matches(k),
            },
    {
        let length = self.entries.len();
        if current_index >= length {
            return None;
        }
        let mut i: usize = current_index + 1;
        while i < length
            invariant
                self.wf(),
                current_index < i <= length == self@.len(),
                forall|k: int| current_index < k < i ==> !self.has_matches(k),
            decreases length - i,
        {
            match self.last_row_of(i) {
                Some(cursor) => {
                    return Some(cursor);
                },
                None => {},
            }
            i += 1;
        }
        None
    }

    /// The nearest match before line `current_index`, if there is one.
    pub fn previous_match(&self, current_index: usize) -> (found: Option<MatchedLine>)
        requires
            self.wf(),
        ensures
            match found {
                Some(cursor) => self.is_previous_match(current_index as int, cursor),
                None => forall|k: int| 0 <= k < current_index ==> !self.has_matches(k),
            },
    {
        let length = self.entries.len();
        let mut i: usize = if current_index <= length {
            current_index
        } else {
            length
        };
        while i > 0
            invariant
                self.wf(),
                i <= current_index,
                i <= self@.len(),
                forall|k: int| i <= k < current_index ==> !self.has_matches(k),
            decreases i,
        {
            i -= 1;
            match self.last_row_of(i) {
                Some(cursor) => {
                    return Some(cursor);
                },
                None => {},
            }
        }
        None
    }

    /// The last match row of line `line`, where the line carries a match.
    fn last_row_of(&self, line: usize) -> (found: Option<MatchedLine>)
        requires
            self.wf(),
            line < self@.len(),
        ensures
            match found {
                Some(cursor) => cursor.line == line && self.is_last_row(cursor),
                None => !self.has_matches(line as int),
            },
    {
        let entry = &self.entries[line];
        assert(self@[line as int] == entry@);
        assert(entry@.wf());
        match &entry.found_matches {
            Some(_) => Some(MatchedLine::new(line, entry.match_count() - 1)),
            None => None,
        }
    }

    /// The rows of the lines `from, .., to - 1`.
    fn height_between(&self, from: usize, to: usize) -> (rows: i32)
        requires
            self.wf(),
            from <= to <= self@.len(),
        ensures
            rows == heights(self@, from as int, to as int),
            0 <= rows,
    {
        let mut rows: i32 = 0;
        let mut i: usize = from;
        while i < to
            invariant
                self.wf(),
                from <= i <= to <= self@.len(),
                rows == heights(self@, from as int, i as int),
                0 <= rows,
            decreases to - i,
        {
            proof {
                let lines = self@;
                let length = lines.len() as int;
                lemma_heights_split(lines, 0, from as int, i + 1);
                lemma_heights_split(lines, 0, i + 1, length);
                lemma_heights_positive(lines, 0, from as int);
                lemma_heights_positive(lines, i + 1, length);
                assert(lines[i as int].wf());
            }
            rows = rows + self.entries[i].height;
            i += 1;
        }
        rows
    }
}

/// The row of a match lies inside its line: above every row of the lines
/// after it and not above the first row of its own line.
pub proof fn lemma_row_bounds(buffer: RenderedLineCollection, cursor: MatchedLine)
    requires
        buffer.wf(),
        buffer.is_match(cursor),
    ensures
        heights(buffer@, cursor.line + 1, buffer@.len() as int)
            < buffer.spec_buffer_reverse_index(cursor.line as int, cursor.match_index as int)
            <= heights(buffer@, cursor.line as int, buffer@.len() as int),
        0 <= heights(buffer@, cursor.line + 1, buffer@.len() as int),
        heights(buffer@, cursor.line as int, buffer@.len() as int) <= buffer.spec_height(),
{
    let lines = buffer@;
    let length = lines.len() as int;
    let line = cursor.line as int;
    assert(lines[line].wf());
    lemma_heights_split(lines, line, line + 1, length);
    assert(heights(lines, line, line + 1) == lines[line].height) by {
        assert(heights(lines, line, line) == 0);
    }
    lemma_heights_positive(lines, line + 1, length);
    lemma_heights_split(lines, 0, line, length);
    lemma_heights_positive(lines, 0, line);
}

/// Of two matches, the one that comes later in the buffer lies closer to
/// the bottom.
pub proof fn lemma_rows_descend(
    buffer: RenderedLineCollection,
    earlier: MatchedLine,
    later: MatchedLine,
)
    requires
        buffer.wf(),
        buffer.is_match(earlier),
        buffer.is_match(later),
        earlier.line < later.line || (earlier.line == later.line && earlier.match_index
            < later.match_index),
    ensures
        buffer.spec_buffer_reverse_index(earlier.line as int, earlier.match_index as int)
            > buffer.spec_buffer_reverse_index(later.line as int, later.match_index as int),
{
    let lines = buffer@;
    let length = lines.len() as int;
    lemma_row_bounds(buffer, earlier);
    lemma_row_bounds(buffer, later);
    if earlier.line < later.line {
        lemma_heights_split(lines, earlier.line + 1, later.line as int, length);
        lemma_heights_positive(lines, earlier.line + 1, later.line as int);
    } else {
        assert(lines[earlier.line as int].wf());
    }
}

/// Cutting a buffer in two loses no row: the rows of the first `n` lines and
/// the rows of the lines after them make up the rows of the buffer.
pub proof fn lemma_height_splits(buffer: RenderedLineCollection, n: usize)
    requires
        n <= buffer@.len(),
    ensures
        buffer.spec_height_up_to_index(n as int) + buffer.spec_last_lines_height(
            buffer@.len() - n,
        ) == buffer.spec_height(),
{
    lemma_heights_split(buffer@, 0, n as int, buffer@.len() as int);
}

/// At most one match is the visible match closest to the bottom.
pub proof fn lemma_viewport_match_unique(
    buffer: RenderedLineCollection,
    viewport: Viewport,
    first: MatchedLine,
    second: MatchedLine,
)
    requires
        buffer.wf(),
        buffer.is_viewport_match(viewport, first),
        buffer.is_viewport_match(viewport, second),
    ensures
        first == second,
{
    if first.line < second.line || (first.line == second.line && first.match_index
        < second.match_index) {
        lemma_rows_descend(buffer, first, second);
    } else if first != second {
        lemma_rows_descend(buffer, second, first);
    }
}

/// A window that covers the whole buffer shows the last match: where the
/// buffer holds a match at all, the visible match closest to the bottom is
/// the match closest to the bottom of the buffer, and no other is.
pub proof fn lemma_covering_viewport_shows_last_match(
    buffer: RenderedLineCollection,
    viewport: Viewport,
    last: MatchedLine,
)
    requires
        buffer.wf(),
        viewport.reverse_index <= 1,
        buffer.spec_height() <= viewport.spec_limit(),
        buffer.is_last_match(last),
    ensures
        buffer.is_viewport_match(viewport, last),
        forall|cursor: MatchedLine| #[trigger]
            buffer.is_viewport_match(viewport, cursor) ==> cursor == last,
{
    assert(buffer@[last.line as int].wf());
    lemma_row_bounds(buffer, last);
    assert forall|other: MatchedLine| #[trigger]
        buffer.is_match(other) && other != last implies buffer.spec_buffer_reverse_index(
        last.line as int,
        last.match_index as int,
    ) < buffer.spec_buffer_reverse_index(other.line as int, other.match_index as int) by {
        assert(!(other.line > last.line)) by {
            if other.line > last.line {
                assert(buffer.has_matches(other.line as int));
            }
        }
        lemma_rows_descend(buffer, other, last);
    }
    assert forall|cursor: MatchedLine| #[trigger]
        buffer.is_viewport_match(viewport, cursor) implies cursor == last by {
        lemma_viewport_match_unique(buffer, viewport, cursor, last);
    }
}

/// Stepping to the next match and from there to the match before it never
/// passes the line at which the step began.
pub proof fn lemma_previous_of_next(
    buffer: RenderedLineCollection,
    from: usize,
    next: MatchedLine,
    previous: MatchedLine,
)
    requires
        buffer.is_next_match(from as int, next),
        buffer.is_previous_match(next.line as int, previous),
    ensures
        previous.line <= from,
{
    if previous.line > from {
        assert(buffer.has_matches(previous.line as int));
    }
}

/// Buffers whose lines agree in height take the same rows in every range.
proof fn lemma_heights_same(
    before: Seq<RenderedLineView>,
    after: Seq<RenderedLineView>,
    from: int,
    to: int,
)
    requires
        0 <= from <= to <= before.len() == after.len(),
        forall|i: int| 0 <= i < before.len() ==> before[i].height == after[i].height,
    ensures
        heights(before, from, to) == heights(after, from, to),
    decreases to - from,
{
    if from < to {
        lemma_heights_same(before, after, from, to - 1);
    }
}

/// A buffer that grew at its end takes the same rows as before in every
/// range of its old lines.
proof fn lemma_heights_prefix(before: Seq<RenderedLineView>, after: Seq<RenderedLineView>, to: int)
    requires
        0 <= to <= before.len() <= after.len(),
        forall|i: int| 0 <= i < before.len() ==> before[i] == after[i],
    ensures
        heights(before, 0, to) == heights(after, 0, to),
    decreases to,
{
    if to > 0 {
        lemma_heights_prefix(before, after, to - 1);
    }
}

} // verus!
