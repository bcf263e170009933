//! Indenting lines the way the syntax around them asks for.

use std::ops::Range;
use std::sync::Arc;

use vstd::prelude::*;

use crate::clock::Version;
use crate::content::{AnchorRangeSet, AnchorSet, anchor_offset, entry_anchor, indent_of};
use crate::document::law_stored_texts;
use crate::edit_laws::lemma_visible_part;
use crate::point::{Point, point_le, point_lt};
use crate::rope::{Bias, few_rows, lemma_newlines_grow, point_at};
use crate::snapshot::{Snapshot, SnapshotModel, non_blank_before};
use crate::syntax::{
    Capture, capture_index, capture_index_for_name, match_models, matches_in_rows, query_rows,
};

verus! {

/// How many columns one level of indentation takes.
pub const INDENT_SIZE: u32 = 4;

/// How many rows are looked at in one go.
pub const MAX_ROWS_AT_ONCE: usize = 100;

/// The first `n` values as ranges: a value that follows on the one before it
/// extends its range, up to `max_len` values.
pub open spec fn ranges_of(values: Seq<u32>, max_len: int, n: int) -> Seq<(int, int)>
    decreases n,
{
    if n <= 0 {
        Seq::empty()
    } else {
        let ranges = ranges_of(values, max_len, n - 1);
        let value = values[n - 1] as int;
        if ranges.len() > 0 && ranges.last().1 == value && ranges.last().1 - ranges.last().0
            < max_len {
            ranges.update(ranges.len() - 1, (ranges.last().0, value + 1))
        } else {
            ranges.push((value, value + 1))
        }
    }
}

/// The numbers from `start` up to `end`.
pub open spec fn counted(start: int, end: int) -> Seq<int> {
    Seq::new(
        if start < end {
            (end - start) as nat
        } else {
            0
        },
        |i: int| start + i,
    )
}

/// The numbers in some ranges, one after the other.
pub open spec fn in_turn(ranges: Seq<(int, int)>) -> Seq<int>
    decreases ranges.len(),
{
    if ranges.len() == 0 {
        Seq::empty()
    } else {
        in_turn(ranges.drop_last()) + counted(ranges.last().0, ranges.last().1)
    }
}

/// The ranges that values are grouped into hold those values, in the same order
/// and nothing else, and at most `max_len` of them each; two ranges could not
/// have been one.
pub proof fn law_ranges_hold_the_values(values: Seq<u32>, max_len: int, n: int)
    requires
        0 <= n <= values.len(),
        max_len > 0,
    ensures
        ({
            let ranges = ranges_of(values, max_len, n);
            &&& in_turn(ranges) == values.take(n).map_values(|value: u32| value as int)
            &&& forall|i: int|
                0 <= i < ranges.len() ==> 0 < (#[trigger] ranges[i]).1 - ranges[i].0 <= max_len
            &&& forall|i: int|
                0 <= i < ranges.len() - 1 ==> (#[trigger] ranges[i]).1 != ranges[i + 1].0
                    || ranges[i].1 - ranges[i].0 == max_len
        }),
    decreases n,
{
    let ranges = ranges_of(values, max_len, n);
    let f = |value: u32| value as int;
    if n > 0 {
        law_ranges_hold_the_values(values, max_len, n - 1);
        let before = ranges_of(values, max_len, n - 1);
        let value = values[n - 1] as int;
        if before.len() > 0 && before.last().1 == value && before.last().1 - before.last().0
            < max_len {
            let a = before.last().0;
            assert(ranges.drop_last() =~= before.drop_last());
            assert(counted(a, value + 1) =~= counted(a, value).push(value));
        } else {
            assert(ranges.drop_last() =~= before);
            assert(counted(value, value + 1) =~= seq![value]);
        }
        assert(values.take(n).map_values(f) =~= values.take(n - 1).map_values(f).push(value));
        assert(in_turn(ranges) =~= in_turn(before).push(value));
        assert forall|i: int| 0 <= i < ranges.len() - 1 implies (#[trigger] ranges[i]).1
            != ranges[i + 1].0 || ranges[i].1 - ranges[i].0 == max_len by {
            if i < before.len() - 1 {
                assert(before[i].1 != before[i + 1].0 || before[i].1 - before[i].0 == max_len);
            } else {
                assert(0 < before[i].1 - before[i].0 <= max_len);
            }
        }
        assert forall|i: int| 0 <= i < ranges.len() implies 0 < (#[trigger] ranges[i]).1
            - ranges[i].0 <= max_len by {
            if i < before.len() {
                assert(0 < before[i].1 - before[i].0 <= max_len);
            }
        }
    } else {
        assert(values.take(n).map_values(f) =~= Seq::empty());
    }
}

/// The ranges as pairs of numbers.
pub open spec fn row_pairs(ranges: Seq<Range<u32>>) -> Seq<(int, int)> {
    ranges.map_values(|r: Range<u32>| (r.start as int, r.end as int))
}

/// Groups values that follow on each other into ranges of at most `max_len`
/// values.
pub fn contiguous_ranges(values: &Vec<u32>, max_len: usize) -> (ranges: Vec<Range<u32>>)
    requires
        forall|i: int| 0 <= i < values@.len() ==> #[trigger] values@[i] < u32::MAX,
    ensures
        row_pairs(ranges@) == ranges_of(values@, max_len as int, values@.len() as int),
        forall|i: int| 0 <= i < ranges@.len() ==> (#[trigger] ranges@[i]).start < ranges@[i].end,
{
    let mut ranges: Vec<Range<u32>> = Vec::new();
    let mut current: Option<Range<u32>> = None;
    let mut i: usize = 0;
    assert(row_pairs(ranges@) =~= Seq::empty());
    while i < values.len()
        invariant
            i <= values@.len(),
            forall|j: int| 0 <= j < values@.len() ==> #[trigger] values@[j] < u32::MAX,
            forall|j: int|
                0 <= j < ranges@.len() ==> (#[trigger] ranges@[j]).start < ranges@[j].end,
            match current {
                Some(range) => {
                    &&& range.start < range.end
                    &&& ranges_of(values@, max_len as int, i as int) == row_pairs(ranges@).push(
                        (range.start as int, range.end as int),
                    )
                },
                None => ranges@.len() == 0 && i == 0,
            },
        decreases values@.len() - i,
    {
        let value = values[i];
        let ghost before = ranges_of(values@, max_len as int, i as int);
        match current {
            Some(range) => {
                let start = range.start;
                let end = range.end;
                proof {
                    assert(before.last() == (start as int, end as int));
                    assert(before.drop_last() =~= row_pairs(ranges@));
                }
                if value == end && ((end - start) as usize) < max_len {
                    current = Some(start..end + 1);
                    assert(before.update(before.len() - 1, (start as int, end + 1))
                        =~= row_pairs(ranges@).push((start as int, end + 1)));
                } else {
                    assert(row_pairs(ranges@.push(start..end)) =~= row_pairs(ranges@).push(
                        (start as int, end as int),
                    ));
                    ranges.push(start..end);
                    current = Some(value..value + 1);
                }
            },
            None => {
                assert(row_pairs(ranges@) =~= Seq::empty());
                current = Some(value..value + 1);
            },
        }
        i = i + 1;
    }
    match current {
        Some(range) => {
            let start = range.start;
            let end = range.end;
            assert(row_pairs(ranges@.push(start..end)) =~= row_pairs(ranges@).push(
                (start as int, end as int),
            ));
            ranges.push(start..end);
        },
        None => {
            assert(row_pairs(ranges@) =~= Seq::empty());
        },
    }
    ranges
}

/// The first place from `i` on whose row is not before `row`.
pub open spec fn row_slot(rows: Seq<(u32, u32)>, row: u32, i: int) -> int
    decreases rows.len() - i,
{
    if 0 <= i < rows.len() && rows[i].0 < row {
        row_slot(rows, row, i + 1)
    } else {
        i
    }
}

/// The value of a row.
pub open spec fn row_value(rows: Seq<(u32, u32)>, row: u32) -> Option<u32> {
    let i = row_slot(rows, row, 0);
    if i < rows.len() && rows[i].0 == row {
        Some(rows[i].1)
    } else {
        None
    }
}

/// The rows with a value for one more of them, or another value for it.
pub open spec fn row_set(rows: Seq<(u32, u32)>, row: u32, value: u32) -> Seq<(u32, u32)> {
    let i = row_slot(rows, row, 0);
    if i < rows.len() && rows[i].0 == row {
        rows.update(i, (row, value))
    } else {
        rows.insert(i, (row, value))
    }
}

/// Rows in order, each with a value.
pub struct RowMap {
    pub entries: Vec<(u32, u32)>,
}

impl RowMap {
    pub fn new() -> (map: RowMap)
        ensures
            map.entries@ == Seq::<(u32, u32)>::empty(),
    {
        RowMap { entries: Vec::new() }
    }

    fn slot(&self, row: u32) -> (slot: usize)
        ensures
            slot == row_slot(self.entries@, row, 0),
            slot <= self.entries@.len(),
    {
        let mut i: usize = 0;
        while i < self.entries.len() && self.entries[i].0 < row
            invariant
                i <= self.entries@.len(),
                row_slot(self.entries@, row, i as int) == row_slot(self.entries@, row, 0),
            decreases self.entries@.len() - i,
        {
            i = i + 1;
        }
        i
    }

    pub fn get(&self, row: u32) -> (value: Option<u32>)
        ensures
            value == row_value(self.entries@, row),
    {
        let i = self.slot(row);
        if i < self.entries.len() && self.entries[i].0 == row {
            Some(self.entries[i].1)
        } else {
            None
        }
    }

    pub fn insert(&mut self, row: u32, value: u32)
        ensures
            final(self).entries@ == row_set(old(self).entries@, row, value),
    {
        let i = self.slot(row);
        if i < self.entries.len() && self.entries[i].0 == row {
            self.entries.set(i, (row, value));
        } else {
            self.entries.insert(i, (row, value));
        }
    }

    /// The rows, in order.
    pub fn keys(&self) -> (keys: Vec<u32>)
        ensures
            keys@ == self.entries@.map_values(|e: (u32, u32)| e.0),
    {
        let mut keys: Vec<u32> = Vec::new();
        let mut i: usize = 0;
        while i < self.entries.len()
            invariant
                i <= self.entries@.len(),
                keys@ =~= self.entries@.take(i as int).map_values(|e: (u32, u32)| e.0),
            decreases self.entries@.len() - i,
        {
            keys.push(self.entries[i].0);
            i = i + 1;
        }
        assert(self.entries@.take(i as int) =~= self.entries@);
        keys
    }

    /// The values, in the order of the rows.
    pub fn values(&self) -> (values: Vec<u32>)
        ensures
            values@ == self.entries@.map_values(|e: (u32, u32)| e.1),
    {
        let mut values: Vec<u32> = Vec::new();
        let mut i: usize = 0;
        while i < self.entries.len()
            invariant
                i <= self.entries@.len(),
                values@ =~= self.entries@.take(i as int).map_values(|e: (u32, u32)| e.1),
            decreases self.entries@.len() - i,
        {
            values.push(self.entries[i].1);
            i = i + 1;
        }
        assert(self.entries@.take(i as int) =~= self.entries@);
        values
    }
}

/// Where the first `n` captures of a match say that an indented range starts
/// and ends: at the first node to be indented, but before a closing node.
pub open spec fn match_range(
    captures: Seq<Capture>,
    indent: Option<u32>,
    end: Option<u32>,
    n: int,
) -> (Option<Point>, Option<Point>)
    decreases n,
{
    if n <= 0 {
        (None, None)
    } else {
        let found = match_range(captures, indent, end, n - 1);
        let capture = captures[n - 1];
        if indent == Some(capture.index) {
            (
                if found.0 is Some {
                    found.0
                } else {
                    Some(capture.start_point)
                },
                if found.1 is Some {
                    found.1
                } else {
                    Some(capture.end_point)
                },
            )
        } else if end == Some(capture.index) {
            (found.0, Some(capture.start_point))
        } else {
            found
        }
    }
}

/// The first place from `i` on whose range does not start before `start`.
pub open spec fn range_slot(ranges: Seq<(Point, Point)>, start: Point, i: int) -> int
    decreases ranges.len() - i,
{
    if 0 <= i < ranges.len() && point_lt(ranges[i].0, start) {
        range_slot(ranges, start, i + 1)
    } else {
        i
    }
}

/// The ranges in the order of their starts, with one more: of those that start
/// together the longest is kept.
pub open spec fn with_range(ranges: Seq<(Point, Point)>, range: (Point, Point)) -> Seq<
    (Point, Point),
> {
    let i = range_slot(ranges, range.0, 0);
    if i < ranges.len() && ranges[i].0 == range.0 {
        ranges.update(
            i,
            (
                range.0,
                if point_lt(ranges[i].1, range.1) {
                    range.1
                } else {
                    ranges[i].1
                },
            ),
        )
    } else {
        ranges.insert(i, range)
    }
}

/// The ranges of more than one row that the first `n` matches ask to indent.
pub open spec fn indented_ranges(
    matches: Seq<Seq<Capture>>,
    indent: Option<u32>,
    end: Option<u32>,
    n: int,
) -> Seq<(Point, Point)>
    decreases n,
{
    if n <= 0 {
        Seq::empty()
    } else {
        let ranges = indented_ranges(matches, indent, end, n - 1);
        match match_range(matches[n - 1], indent, end, matches[n - 1].len() as int) {
            (Some(start), Some(end)) => if start.row == end.row {
                ranges
            } else {
                with_range(ranges, (start, end))
            },
            _ => ranges,
        }
    }
}

fn find_match_range(captures: &Vec<Capture>, indent: Option<u32>, end: Option<u32>) -> (range: (
    Option<Point>,
    Option<Point>,
))
    ensures
        range == match_range(captures@, indent, end, captures@.len() as int),
{
    let mut range_start: Option<Point> = None;
    let mut range_end: Option<Point> = None;
    let mut i: usize = 0;
    while i < captures.len()
        invariant
            i <= captures@.len(),
            (range_start, range_end) == match_range(captures@, indent, end, i as int),
        decreases captures@.len() - i,
    {
        let capture = captures[i];
        let is_indent = match indent {
            Some(index) => index == capture.index,
            None => false,
        };
        let is_end = match end {
            Some(index) => index == capture.index,
            None => false,
        };
        if is_indent {
            if range_start.is_none() {
                range_start = Some(capture.start_point);
            }
            if range_end.is_none() {
                range_end = Some(capture.end_point);
            }
        } else if is_end {
            range_end = Some(capture.start_point);
        }
        i = i + 1;
    }
    (range_start, range_end)
}

/// The ranges of more than one row that the matches of an indents query ask to
/// indent, in the order of their starts.
pub fn indentation_ranges(
    matches: &Vec<Vec<Capture>>,
    indent: Option<u32>,
    end: Option<u32>,
) -> (ranges: Vec<(Point, Point)>)
    ensures
        ranges@ == indented_ranges(match_models(matches@), indent, end, matches@.len() as int),
{
    let ghost models = match_models(matches@);
    let mut ranges: Vec<(Point, Point)> = Vec::new();
    let mut i: usize = 0;
    while i < matches.len()
        invariant
            i <= matches@.len(),
            models == match_models(matches@),
            ranges@ == indented_ranges(models, indent, end, i as int),
        decreases matches@.len() - i,
    {
        assert(models[i as int] == matches@[i as int]@);
        match find_match_range(&matches[i], indent, end) {
            (Some(start), Some(end)) => {
                if start.row != end.row {
                    let mut slot: usize = 0;
                    while slot < ranges.len() && ranges[slot].0.is_before(&start)
                        invariant
                            slot <= ranges@.len(),
                            range_slot(ranges@, start, slot as int) == range_slot(
                                ranges@,
                                start,
                                0,
                            ),
                        decreases ranges@.len() - slot,
                    {
                        slot = slot + 1;
                    }
                    if slot < ranges.len() && ranges[slot].0 == start {
                        let last = ranges[slot].1;
                        ranges.set(
                            slot,
                            (
                                start,
                                if last.is_before(&end) {
                                    end
                                } else {
                                    last
                                },
                            ),
                        );
                    } else {
                        ranges.insert(slot, (start, end));
                    }
                }
            },
            _ => {},
        }
        i = i + 1;
    }
    ranges
}

/// How a row should be indented: as much as another row, or one level more.
#[derive(Clone, Copy, Debug, PartialEq, Eq, Structural)]
pub struct IndentSuggestion {
    pub basis_row: u32,
    pub indent: bool,
}

/// A range that starts on the row before is still open where the row's text
/// starts.
pub open spec fn opens_before(
    ranges: Seq<(Point, Point)>,
    row: u32,
    prev_row: u32,
    row_start: Point,
    n: int,
) -> bool
    decreases n,
{
    n > 0 && (opens_before(ranges, row, prev_row, row_start, n - 1) || (ranges[n - 1].0.row < row
        && ranges[n - 1].0.row == prev_row && point_lt(row_start, ranges[n - 1].1)))
}

/// The first row of the ranges that end on the row before, or on this row
/// before its text starts.
pub open spec fn outdent_row(
    ranges: Seq<(Point, Point)>,
    row: u32,
    prev_row: u32,
    row_start: Point,
    n: int,
) -> u32
    decreases n,
{
    if n <= 0 {
        u32::MAX
    } else {
        let found = outdent_row(ranges, row, prev_row, row_start, n - 1);
        if ranges[n - 1].0.row < row && ranges[n - 1].1.row >= prev_row && point_le(
            ranges[n - 1].1,
            row_start,
        ) && ranges[n - 1].0.row < found {
            ranges[n - 1].0.row
        } else {
            found
        }
    }
}

/// How a row should be indented, going by the row before it.
pub open spec fn suggestion_for(
    ranges: Seq<(Point, Point)>,
    row: u32,
    prev_row: u32,
    row_start: Point,
) -> IndentSuggestion {
    let n = ranges.len() as int;
    let outdent = outdent_row(ranges, row, prev_row, row_start, n);
    if outdent == prev_row {
        IndentSuggestion { basis_row: prev_row, indent: false }
    } else if opens_before(ranges, row, prev_row, row_start, n) {
        IndentSuggestion { basis_row: prev_row, indent: true }
    } else if outdent < prev_row {
        IndentSuggestion { basis_row: outdent, indent: false }
    } else {
        IndentSuggestion { basis_row: prev_row, indent: false }
    }
}

/// How the rows from `start` to `end` should be indented, each going by the row
/// before it, and the first by `prev_row`.
pub open spec fn suggestions_for(
    ranges: Seq<(Point, Point)>,
    text: Seq<u8>,
    start: u32,
    end: u32,
    prev_row: u32,
) -> Seq<IndentSuggestion> {
    Seq::new(
        (if start <= end {
            end - start
        } else {
            0
        }) as nat,
        |k: int|
            suggestion_for(
                ranges,
                (start + k) as u32,
                if k == 0 {
                    prev_row
                } else {
                    (start + k - 1) as u32
                },
                Point {
                    row: (start + k) as u32,
                    column: indent_of(text, start + k) as u32,
                },
            ),
    )
}

/// How a row should be indented, going by the row before it.
pub fn suggest(
    ranges: &Vec<(Point, Point)>,
    row: u32,
    prev_row: u32,
    row_start: Point,
) -> (suggestion: IndentSuggestion)
    ensures
        suggestion == suggestion_for(ranges@, row, prev_row, row_start),
{
    let mut indent_from_prev_row = false;
    let mut outdent_to_row: u32 = u32::MAX;
    let mut i: usize = 0;
    while i < ranges.len()
        invariant
            i <= ranges@.len(),
            indent_from_prev_row == opens_before(ranges@, row, prev_row, row_start, i as int),
            outdent_to_row == outdent_row(ranges@, row, prev_row, row_start, i as int),
        decreases ranges@.len() - i,
    {
        let (start, end) = ranges[i];
        if start.row < row {
            if start.row == prev_row && row_start.is_before(&end) {
                indent_from_prev_row = true;
            }
            if end.row >= prev_row && !row_start.is_before(&end) && start.row < outdent_to_row {
                outdent_to_row = start.row;
            }
        }
        i = i + 1;
    }
    if outdent_to_row == prev_row {
        IndentSuggestion { basis_row: prev_row, indent: false }
    } else if indent_from_prev_row {
        IndentSuggestion { basis_row: prev_row, indent: true }
    } else if outdent_to_row < prev_row {
        IndentSuggestion { basis_row: outdent_to_row, indent: false }
    } else {
        IndentSuggestion { basis_row: prev_row, indent: false }
    }
}

/// The row that the first suggestion goes by, and the row from which on the
/// syntax matters.
pub open spec fn first_rows(text: Seq<u8>, start: u32) -> (u32, u32) {
    match non_blank_before(text, start as int) {
        Some(row) => (row, row),
        None => (0, start),
    }
}

/// How the rows from `start` to `end` of a snapshot should be indented; nothing
/// without a language and a syntax tree.
pub open spec fn suggested(snapshot: SnapshotModel, start: u32, end: u32) -> Option<
    Seq<IndentSuggestion>,
> {
    match (snapshot.language, snapshot.tree) {
        (Some(language), Some(tree)) => {
            let rows = first_rows(snapshot.text, start);
            let query = language.indents_query;
            let matches = matches_in_rows(query, tree, snapshot.text, rows.1, end);
            let ranges = indented_ranges(
                matches,
                capture_index(query, "indent"@),
                capture_index(query, "end"@),
                matches.len() as int,
            );
            Some(suggestions_for(ranges, snapshot.text, start, end, rows.0))
        },
        _ => None,
    }
}

pub open spec fn maybe_suggestions(suggestions: Option<Vec<IndentSuggestion>>) -> Option<
    Seq<IndentSuggestion>,
> {
    match suggestions {
        Some(suggestions) => Some(suggestions@),
        None => None,
    }
}

impl Snapshot {
    /// How the rows of a range should be indented.
    pub fn suggest_autoindents(&self, row_range: Range<u32>) -> (suggestions: Option<
        Vec<IndentSuggestion>,
    >)
        requires
            self.wf(),
        ensures
            maybe_suggestions(suggestions) == suggested(self@, row_range.start, row_range.end),
    {
        match (&self.language, &self.tree) {
            (Some(language), Some(tree)) => {
                let start = row_range.start;
                let end = row_range.end;
                let prev_non_blank_row = self.prev_non_blank_row(start);
                let (prev_row, first_row) = match prev_non_blank_row {
                    Some(row) => (row, row),
                    None => (0, start),
                };
                let query = &language.indents_query;
                let indent = capture_index_for_name(query, "indent");
                let end_capture = capture_index_for_name(query, "end");
                let matches = query_rows(
                    query,
                    tree,
                    self.visible_text.as_bytes(),
                    first_row,
                    end,
                );
                let ranges = indentation_ranges(&matches, indent, end_capture);
                let mut suggestions: Vec<IndentSuggestion> = Vec::new();
                let mut prev: u32 = prev_row;
                let mut row: u32 = start;
                let ghost goal = suggestions_for(ranges@, self@.text, start, end, prev_row);
                while row < end
                    invariant
                        self.wf(),
                        start <= row,
                        start <= end ==> row <= end,
                        start > end ==> row == start,
                        goal == suggestions_for(ranges@, self@.text, start, end, prev_row),
                        suggestions@.len() == row - start,
                        suggestions@ =~= goal.take(row - start),
                        prev == if row == start {
                            prev_row
                        } else {
                            (row - 1) as u32
                        },
                    decreases end - row,
                {
                    let row_start = Point::new(row, self.indent_column_for_line(row));
                    let suggestion = suggest(&ranges, row, prev, row_start);
                    assert(suggestion == goal[row - start]);
                    suggestions.push(suggestion);
                    prev = row;
                    row = row + 1;
                }
                assert(goal.take(goal.len() as int) =~= goal);
                Some(suggestions)
            },
            _ => None,
        }
    }
}

/// An edit after which lines are to be indented: the text before the edit, the
/// places where it was edited, and what was inserted there.
pub struct AutoindentRequest {
    pub before_edit: Snapshot,
    pub edited: AnchorSet,
    pub inserted: Option<AnchorRangeSet>,
}

impl AutoindentRequest {
    pub open spec fn wf(&self) -> bool {
        self.before_edit.wf()
    }
}

/// The row of an entry of anchors that were made at version `v`.
pub open spec fn entry_row(snapshot: SnapshotModel, entry: (usize, Bias), v: Version) -> u32 {
    point_at(snapshot.text, anchor_offset(snapshot.cells, entry_anchor(entry, v))).row
}

/// The rows of the first `n` edited places before the edit, each with its row
/// now.
pub open spec fn moved_rows(
    request: AutoindentRequest,
    snapshot: SnapshotModel,
    n: int,
) -> Seq<(u32, u32)>
    decreases n,
{
    if n <= 0 {
        Seq::empty()
    } else {
        let set = request.edited.0;
        row_set(
            moved_rows(request, snapshot, n - 1),
            entry_row(request.before_edit@, set.entries@[n - 1].0, set.version@),
            entry_row(snapshot, set.entries@[n - 1].0, set.version@),
        )
    }
}

/// The column that a suggestion asks for, given that of its basis.
pub open spec fn indented(column: u32, suggestion: IndentSuggestion) -> u32 {
    if suggestion.indent {
        if column + INDENT_SIZE > u32::MAX {
            u32::MAX
        } else {
            (column + INDENT_SIZE) as u32
        }
    } else {
        column
    }
}

fn indent_by(column: u32, suggestion: IndentSuggestion) -> (result: u32)
    ensures
        result == indented(column, suggestion),
{
    if !suggestion.indent {
        column
    } else if column > u32::MAX - INDENT_SIZE {
        u32::MAX
    } else {
        column + INDENT_SIZE
    }
}

/// What is suggested for a range, or nothing.
pub open spec fn suggested_or_nothing(snapshot: SnapshotModel, range: (int, int)) -> Seq<
    IndentSuggestion,
> {
    match suggested(snapshot, range.0 as u32, range.1 as u32) {
        Some(suggestions) => suggestions,
        None => Seq::empty(),
    }
}

/// What the text before the edit suggested for the first `n` rows of a range,
/// by the rows as they are now.
pub open spec fn old_columns_in(
    before: SnapshotModel,
    moved: Seq<(u32, u32)>,
    columns: Seq<(u32, u32)>,
    range: (int, int),
    n: int,
) -> Seq<(u32, u32)>
    decreases n,
{
    if n <= 0 {
        columns
    } else {
        let found = old_columns_in(before, moved, columns, range, n - 1);
        let suggestion = suggested_or_nothing(before, range)[n - 1];
        let basis = match row_value(moved, suggestion.basis_row) {
            Some(row) => row_value(found, row),
            None => None,
        };
        let column = match basis {
            Some(column) => column,
            None => indent_of(before.text, suggestion.basis_row as int) as u32,
        };
        match row_value(moved, (range.0 + n - 1) as u32) {
            Some(row) => row_set(found, row, indented(column, suggestion)),
            None => found,
        }
    }
}

/// The same for the first `n` ranges.
pub open spec fn old_columns(
    before: SnapshotModel,
    moved: Seq<(u32, u32)>,
    ranges: Seq<(int, int)>,
    n: int,
) -> Seq<(u32, u32)>
    decreases n,
{
    if n <= 0 {
        Seq::empty()
    } else {
        old_columns_in(
            before,
            moved,
            old_columns(before, moved, ranges, n - 1),
            ranges[n - 1],
            suggested_or_nothing(before, ranges[n - 1]).len() as int,
        )
    }
}

/// The columns of the first `n` rows of a range, where they should change:
/// where nothing was suggested before the edit, or something else.
pub open spec fn new_columns_in(
    snapshot: SnapshotModel,
    suggested_before: Option<Seq<(u32, u32)>>,
    columns: Seq<(u32, u32)>,
    range: (int, int),
    n: int,
) -> Seq<(u32, u32)>
    decreases n,
{
    if n <= 0 {
        columns
    } else {
        let found = new_columns_in(snapshot, suggested_before, columns, range, n - 1);
        let suggestion = suggested_or_nothing(snapshot, range)[n - 1];
        let basis = match row_value(found, suggestion.basis_row) {
            Some(column) => column,
            None => indent_of(snapshot.text, suggestion.basis_row as int) as u32,
        };
        let column = indented(basis, suggestion);
        let row = (range.0 + n - 1) as u32;
        match suggested_before {
            Some(before) => if row_value(before, row) == Some(column) {
                found
            } else {
                row_set(found, row, column)
            },
            None => row_set(found, row, column),
        }
    }
}

/// The same for the first `n` ranges.
pub open spec fn new_columns(
    snapshot: SnapshotModel,
    suggested_before: Option<Seq<(u32, u32)>>,
    columns: Seq<(u32, u32)>,
    ranges: Seq<(int, int)>,
    n: int,
) -> Seq<(u32, u32)>
    decreases n,
{
    if n <= 0 {
        columns
    } else {
        new_columns_in(
            snapshot,
            suggested_before,
            new_columns(snapshot, suggested_before, columns, ranges, n - 1),
            ranges[n - 1],
            suggested_or_nothing(snapshot, ranges[n - 1]).len() as int,
        )
    }
}

/// The rows of the first `n` inserted ranges.
pub open spec fn inserted_rows(set: AnchorRangeSet, snapshot: SnapshotModel, n: int) -> Seq<u32>
    decreases n,
{
    if n <= 0 {
        Seq::empty()
    } else {
        let start = entry_row(snapshot, set.0.entries@[n - 1].0.start, set.0.version@);
        let end = entry_row(snapshot, set.0.entries@[n - 1].0.end, set.0.version@);
        inserted_rows(set, snapshot, n - 1) + row_run(start, end)
    }
}

/// The rows from `start` to `end`, with both of them.
pub open spec fn row_run(start: u32, end: u32) -> Seq<u32> {
    Seq::new(
        (if start <= end {
            end - start + 1
        } else {
            0
        }) as nat,
        |k: int| (start + k) as u32,
    )
}

/// The columns once one more request has been looked at.
pub open spec fn request_columns(
    request: AutoindentRequest,
    snapshot: SnapshotModel,
    columns: Seq<(u32, u32)>,
) -> Seq<(u32, u32)> {
    let max = MAX_ROWS_AT_ONCE as int;
    let moved = moved_rows(request, snapshot, request.edited.0.entries@.len() as int);
    let old_rows = moved.map_values(|e: (u32, u32)| e.0);
    let new_rows = moved.map_values(|e: (u32, u32)| e.1);
    let old_ranges = ranges_of(old_rows, max, old_rows.len() as int);
    let new_ranges = ranges_of(new_rows, max, new_rows.len() as int);
    let before = old_columns(request.before_edit@, moved, old_ranges, old_ranges.len() as int);
    let edited = new_columns(snapshot, Some(before), columns, new_ranges, new_ranges.len() as int);
    match request.inserted {
        Some(set) => {
            let rows = inserted_rows(set, snapshot, set.0.entries@.len() as int);
            let ranges = ranges_of(rows, max, rows.len() as int);
            new_columns(snapshot, None, edited, ranges, ranges.len() as int)
        },
        None => edited,
    }
}

/// The columns that the first `n` requests ask for, by row.
pub open spec fn indent_columns(
    requests: Seq<Arc<AutoindentRequest>>,
    snapshot: SnapshotModel,
    n: int,
) -> Seq<(u32, u32)>
    decreases n,
{
    if n <= 0 {
        Seq::empty()
    } else {
        request_columns(*requests[n - 1], snapshot, indent_columns(requests, snapshot, n - 1))
    }
}

/// A row of a snapshot is not the largest number there is.
proof fn lemma_entry_row(snapshot: &Snapshot, entry: (usize, Bias), v: Version)
    requires
        snapshot.wf(),
        few_rows(snapshot@.text),
    ensures
        entry_row(snapshot@, entry, v) < u32::MAX,
        0 <= anchor_offset(snapshot@.cells, entry_anchor(entry, v)) <= snapshot@.text.len(),
{
    let d = snapshot.doc();
    law_stored_texts(d);
    crate::content::lemma_anchor_offset(d.cells(), entry_anchor(entry, v));
    lemma_visible_part(d.cells(), 0, d.cells().len() as int);
    lemma_newlines_grow(
        snapshot@.text,
        anchor_offset(snapshot@.cells, entry_anchor(entry, v)),
        snapshot@.text.len() as int,
    );
}

/// The row of an entry of anchors in a snapshot.
fn row_of_entry(snapshot: &Snapshot, entry: (usize, Bias), version: &crate::clock::Global) -> (row:
    u32)
    requires
        snapshot.wf(),
        few_rows(snapshot@.text),
    ensures
        row == entry_row(snapshot@, entry, version@),
        row < u32::MAX,
{
    proof {
        lemma_entry_row(snapshot, entry, version@);
    }
    let anchor = crate::operation::Anchor {
        offset: entry.0,
        bias: entry.1,
        version: version.clone(),
    };
    snapshot.content().point_for_anchor(&anchor).row
}

/// Every row is less than the largest number there is.
spec fn rows_fit(rows: Seq<(u32, u32)>) -> bool {
    forall|i: int|
        0 <= i < rows.len() ==> (#[trigger] rows[i]).0 < u32::MAX && rows[i].1 < u32::MAX
}

proof fn lemma_row_slot(rows: Seq<(u32, u32)>, row: u32, i: int)
    requires
        0 <= i <= rows.len(),
    ensures
        i <= row_slot(rows, row, i) <= rows.len(),
    decreases rows.len() - i,
{
    if i < rows.len() && rows[i].0 < row {
        lemma_row_slot(rows, row, i + 1);
    }
}

/// The rows of the edited places before the edit, each with its row now.
fn map_rows(request: &AutoindentRequest, snapshot: &Snapshot) -> (moved: RowMap)
    requires
        request.wf(),
        snapshot.wf(),
        few_rows(request.before_edit@.text),
        few_rows(snapshot@.text),
    ensures
        moved.entries@ == moved_rows(
            *request,
            snapshot@,
            request.edited.0.entries@.len() as int,
        ),
        rows_fit(moved.entries@),
{
    let mut moved = RowMap::new();
    let set = &request.edited.0;
    let mut i: usize = 0;
    while i < set.entries.len()
        invariant
            i <= set.entries@.len(),
            *set == request.edited.0,
            request.wf(),
            snapshot.wf(),
            few_rows(request.before_edit@.text),
            few_rows(snapshot@.text),
            moved.entries@ == moved_rows(*request, snapshot@, i as int),
            rows_fit(moved.entries@),
        decreases set.entries@.len() - i,
    {
        let entry = set.entries[i].0;
        let old_row = row_of_entry(&request.before_edit, entry, &set.version);
        let new_row = row_of_entry(snapshot, entry, &set.version);
        proof {
            lemma_row_slot(moved.entries@, old_row, 0);
        }
        moved.insert(old_row, new_row);
        i = i + 1;
    }
    moved
}

/// What the text before the edit suggested, by the rows as they are now.
fn suggest_old(before: &Snapshot, moved: &RowMap) -> (columns: RowMap)
    requires
        before.wf(),
        rows_fit(moved.entries@),
    ensures
        ({
            let rows = moved.entries@.map_values(|e: (u32, u32)| e.0);
            let ranges = ranges_of(rows, MAX_ROWS_AT_ONCE as int, rows.len() as int);
            columns.entries@ == old_columns(before@, moved.entries@, ranges, ranges.len() as int)
        }),
{
    let keys = moved.keys();
    let ranges = contiguous_ranges(&keys, MAX_ROWS_AT_ONCE);
    let ghost pairs = row_pairs(ranges@);
    let mut columns = RowMap::new();
    let mut k: usize = 0;
    while k < ranges.len()
        invariant
            k <= ranges@.len(),
            before.wf(),
            pairs == row_pairs(ranges@),
            forall|i: int|
                0 <= i < ranges@.len() ==> (#[trigger] ranges@[i]).start < ranges@[i].end,
            columns.entries@ == old_columns(before@, moved.entries@, pairs, k as int),
        decreases ranges@.len() - k,
    {
        let start = ranges[k].start;
        let end = ranges[k].end;
        let ghost pair = pairs[k as int];
        let ghost given = columns.entries@;
        assert(pair == (start as int, end as int));
        match before.suggest_autoindents(start..end) {
            Some(suggestions) => {
                let mut i: usize = 0;
                while i < suggestions.len()
                    invariant
                        i <= suggestions@.len(),
                        before.wf(),
                        suggestions@ == suggested_or_nothing(before@, pair),
                        suggestions@.len() <= end - start,
                        start <= end,
                        pair == (start as int, end as int),
                        columns.entries@ == old_columns_in(
                            before@,
                            moved.entries@,
                            given,
                            pair,
                            i as int,
                        ),
                    decreases suggestions@.len() - i,
                {
                    let suggestion = suggestions[i];
                    let basis = match moved.get(suggestion.basis_row) {
                        Some(row) => columns.get(row),
                        None => None,
                    };
                    let column = match basis {
                        Some(column) => column,
                        None => before.indent_column_for_line(suggestion.basis_row),
                    };
                    match moved.get(start + i as u32) {
                        Some(row) => {
                            columns.insert(row, indent_by(column, suggestion));
                        },
                        None => {},
                    }
                    i = i + 1;
                }
            },
            None => {},
        }
        k = k + 1;
    }
    columns
}

/// Adds the columns of the given rows, where they should change.
fn suggest_new(
    snapshot: &Snapshot,
    suggested_before: Option<&RowMap>,
    rows: &Vec<u32>,
    columns: RowMap,
) -> (result: RowMap)
    requires
        snapshot.wf(),
        forall|i: int| 0 <= i < rows@.len() ==> #[trigger] rows@[i] < u32::MAX,
    ensures
        ({
            let ranges = ranges_of(rows@, MAX_ROWS_AT_ONCE as int, rows@.len() as int);
            result.entries@ == new_columns(
                snapshot@,
                maybe_entries(suggested_before),
                columns.entries@,
                ranges,
                ranges.len() as int,
            )
        }),
{
    let ghost start_columns = columns.entries@;
    let ghost before = maybe_entries(suggested_before);
    let ranges = contiguous_ranges(rows, MAX_ROWS_AT_ONCE);
    let ghost pairs = row_pairs(ranges@);
    let mut columns = columns;
    let mut k: usize = 0;
    while k < ranges.len()
        invariant
            k <= ranges@.len(),
            snapshot.wf(),
            pairs == row_pairs(ranges@),
            before == maybe_entries(suggested_before),
            forall|i: int|
                0 <= i < ranges@.len() ==> (#[trigger] ranges@[i]).start < ranges@[i].end,
            columns.entries@ == new_columns(snapshot@, before, start_columns, pairs, k as int),
        decreases ranges@.len() - k,
    {
        let start = ranges[k].start;
        let end = ranges[k].end;
        let ghost pair = pairs[k as int];
        let ghost given = columns.entries@;
        assert(pair == (start as int, end as int));
        match snapshot.suggest_autoindents(start..end) {
            Some(suggestions) => {
                let mut i: usize = 0;
                while i < suggestions.len()
                    invariant
                        i <= suggestions@.len(),
                        snapshot.wf(),
                        before == maybe_entries(suggested_before),
                        suggestions@ == suggested_or_nothing(snapshot@, pair),
                        suggestions@.len() <= end - start,
                        start <= end,
                        pair == (start as int, end as int),
                        columns.entries@ == new_columns_in(
                            snapshot@,
                            before,
                            given,
                            pair,
                            i as int,
                        ),
                    decreases suggestions@.len() - i,
                {
                    let suggestion = suggestions[i];
                    let basis = match columns.get(suggestion.basis_row) {
                        Some(column) => column,
                        None => snapshot.indent_column_for_line(suggestion.basis_row),
                    };
                    let column = indent_by(basis, suggestion);
                    let row: u32 = start + i as u32;
                    let same = match suggested_before {
                        Some(map) => match map.get(row) {
                            Some(old) => old == column,
                            None => false,
                        },
                        None => false,
                    };
                    if !same {
                        columns.insert(row, column);
                    }
                    i = i + 1;
                }
            },
            None => {},
        }
        k = k + 1;
    }
    columns
}

pub open spec fn maybe_entries(map: Option<&RowMap>) -> Option<Seq<(u32, u32)>> {
    match map {
        Some(map) => Some(map.entries@),
        None => None,
    }
}

/// The rows of inserted ranges.
fn rows_inserted(set: &AnchorRangeSet, snapshot: &Snapshot) -> (rows: Vec<u32>)
    requires
        snapshot.wf(),
        few_rows(snapshot@.text),
    ensures
        rows@ == inserted_rows(*set, snapshot@, set.0.entries@.len() as int),
        forall|i: int| 0 <= i < rows@.len() ==> #[trigger] rows@[i] < u32::MAX,
{
    let mut rows: Vec<u32> = Vec::new();
    let mut k: usize = 0;
    while k < set.0.entries.len()
        invariant
            k <= set.0.entries@.len(),
            snapshot.wf(),
            few_rows(snapshot@.text),
            rows@ == inserted_rows(*set, snapshot@, k as int),
            forall|i: int| 0 <= i < rows@.len() ==> #[trigger] rows@[i] < u32::MAX,
        decreases set.0.entries@.len() - k,
    {
        let first = row_of_entry(snapshot, set.0.entries[k].0.start, &set.0.version);
        let last = row_of_entry(snapshot, set.0.entries[k].0.end, &set.0.version);
        let ghost given = rows@;
        let ghost run = row_run(first, last);
        let mut row: u32 = first;
        assert(given + run.take(0) =~= given);
        while row <= last
            invariant
                first <= row,
                first <= last ==> row <= last + 1,
                first > last ==> row == first,
                last < u32::MAX,
                run == row_run(first, last),
                rows@ =~= given + run.take(row - first),
                forall|i: int| 0 <= i < rows@.len() ==> #[trigger] rows@[i] < u32::MAX,
            decreases last + 1 - row,
        {
            proof {
                assert(run[row - first] == row);
                assert(run.take(row - first + 1) =~= run.take(row - first).push(row));
            }
            rows.push(row);
            row = row + 1;
        }
        assert(run.take(run.len() as int) =~= run);
        k = k + 1;
    }
    rows
}

/// Lines to be indented: the text as it is, and the edits that ask for it.
pub struct AutoindentTask {
    pub snapshot: Snapshot,
    pub requests: Vec<Arc<AutoindentRequest>>,
}

impl AutoindentTask {
    pub open spec fn wf(&self) -> bool {
        &&& self.snapshot.wf()
        &&& forall|i: int| 0 <= i < self.requests@.len() ==> (#[trigger] self.requests@[i]).wf()
    }

    /// The rows of the texts can be counted.
    pub open spec fn few_rows(&self) -> bool {
        &&& few_rows(self.snapshot@.text)
        &&& forall|i: int|
            0 <= i < self.requests@.len() ==> few_rows(
                (#[trigger] self.requests@[i]).before_edit@.text,
            )
    }

    /// Whether the rows of the texts can be counted.
    pub fn has_few_rows(&self) -> (b: bool)
        requires
            self.wf(),
        ensures
            b == self.few_rows(),
    {
        if self.snapshot.max_point().row == u32::MAX {
            return false;
        }
        let mut i: usize = 0;
        while i < self.requests.len()
            invariant
                i <= self.requests@.len(),
                self.wf(),
                few_rows(self.snapshot@.text),
                forall|j: int|
                    0 <= j < i ==> few_rows((#[trigger] self.requests@[j]).before_edit@.text),
            decreases self.requests@.len() - i,
        {
            let request = &self.requests[i];
            assert(self.requests@[i as int].wf());
            if request.before_edit.max_point().row == u32::MAX {
                return false;
            }
            i = i + 1;
        }
        true
    }

    /// The rows to be indented, each with its column.
    pub fn run(&self) -> (columns: RowMap)
        requires
            self.wf(),
            self.few_rows(),
        ensures
            columns.entries@ == indent_columns(
                self.requests@,
                self.snapshot@,
                self.requests@.len() as int,
            ),
    {
        let snapshot = &self.snapshot;
        let mut columns = RowMap::new();
        let mut i: usize = 0;
        while i < self.requests.len()
            invariant
                i <= self.requests@.len(),
                self.wf(),
                self.few_rows(),
                *snapshot == self.snapshot,
                columns.entries@ == indent_columns(self.requests@, snapshot@, i as int),
            decreases self.requests@.len() - i,
        {
            let request = &self.requests[i];
            assert(self.requests@[i as int].wf());
            let moved = map_rows(request, snapshot);
            let before = suggest_old(&request.before_edit, &moved);
            let rows = moved.values();
            columns = suggest_new(snapshot, Some(&before), &rows, columns);
            match &request.inserted {
                Some(set) => {
                    let rows = rows_inserted(set, snapshot);
                    columns = suggest_new(snapshot, None, &rows, columns);
                },
                None => {},
            }
            i = i + 1;
        }
        columns
    }
}

} // verus!
