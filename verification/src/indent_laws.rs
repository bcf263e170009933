//! How lines are indented: how far, going by which row, and which of them.

use std::sync::Arc;

use tree_sitter::Tree;
use vstd::prelude::*;

use crate::clock::Version;
use crate::content::{AnchorRangeSet, anchor_offset, indent_of};
use crate::indent::{
    AutoindentRequest, IndentSuggestion, MAX_ROWS_AT_ONCE, counted, entry_row, in_turn,
    indent_columns, indented, indented_ranges, inserted_rows, law_ranges_hold_the_values,
    match_range, moved_rows, new_columns, new_columns_in, old_columns, old_columns_in, opens_before,
    outdent_row, range_slot, ranges_of, request_columns, row_run, row_set, row_slot, row_value,
    suggested, suggested_or_nothing, suggestion_for, suggestions_for, with_range,
};
use crate::operation::AnchorModel;
use crate::point::{Point, point_le, point_lt};
use crate::rope::{Bias, point_at};
use crate::snapshot::{SnapshotModel, blank_line, non_blank_before};
use crate::syntax::{Capture, capture_index, matches_in_rows};

verus! {

/// A row that is to be indented stands four columns further right than the row
/// that it goes by, wherever that one stands; any other row stands where that one
/// does. The columns stop at the largest number there is.
pub proof fn law_indent_adds_one_level(column: u32, suggestion: IndentSuggestion)
    ensures
        !suggestion.indent ==> indented(column, suggestion) == column,
        suggestion.indent && column + 4 <= u32::MAX ==> indented(column, suggestion) == column + 4,
        suggestion.indent && column + 4 > u32::MAX ==> indented(column, suggestion) == u32::MAX,
{
}

/// Rows nested one deeper than others stand one level further right than those,
/// at every depth.
pub proof fn law_levels_add_up(column: u32, outer: IndentSuggestion, inner: IndentSuggestion)
    requires
        outer.indent,
        inner.indent,
        column + 8 <= u32::MAX,
    ensures
        indented(indented(column, outer), inner) == column + 8,
{
}

/// The rows are in order, and none comes twice.
pub open spec fn rows_in_order(rows: Seq<(u32, u32)>) -> bool {
    forall|i: int, j: int| 0 <= i < j < rows.len() ==> (#[trigger] rows[i]).0 < (#[trigger] rows[j]).0
}

proof fn lemma_slot(rows: Seq<(u32, u32)>, row: u32, i: int)
    requires
        rows_in_order(rows),
        0 <= i <= rows.len(),
        forall|j: int| 0 <= j < i ==> (#[trigger] rows[j]).0 < row,
    ensures
        i <= row_slot(rows, row, i) <= rows.len(),
        forall|j: int| 0 <= j < row_slot(rows, row, i) ==> (#[trigger] rows[j]).0 < row,
        forall|j: int| row_slot(rows, row, i) <= j < rows.len() ==> (#[trigger] rows[j]).0 >= row,
    decreases rows.len() - i,
{
    if i < rows.len() && rows[i].0 < row {
        lemma_slot(rows, row, i + 1);
    } else {
        assert forall|j: int| i <= j < rows.len() implies (#[trigger] rows[j]).0 >= row by {
            if i < j {
                assert(rows[i].0 < rows[j].0);
            }
        }
    }
}

/// The value of a row is the one that stands with it, if one does.
pub proof fn law_row_value(rows: Seq<(u32, u32)>, row: u32)
    requires
        rows_in_order(rows),
    ensures
        match row_value(rows, row) {
            Some(value) => rows.contains((row, value)),
            None => forall|i: int| 0 <= i < rows.len() ==> (#[trigger] rows[i]).0 != row,
        },
        forall|value: u32| #[trigger]
            rows.contains((row, value)) ==> row_value(rows, row) == Some(value),
{
    lemma_slot(rows, row, 0);
    let i = row_slot(rows, row, 0);
    if i < rows.len() && rows[i].0 == row {
        assert(rows[i] == (row, rows[i].1));
    }
    assert forall|value: u32| #[trigger] rows.contains((row, value)) implies row_value(rows, row)
        == Some(value) by {
        let j = rows.index_of((row, value));
        assert(rows[j].0 == row);
        if i < j {
            assert(rows[i].0 < rows[j].0);
        }
    }
}

/// A row that has been given a value has it; all other rows keep theirs.
pub proof fn law_row_set(rows: Seq<(u32, u32)>, row: u32, value: u32)
    requires
        rows_in_order(rows),
    ensures
        rows_in_order(row_set(rows, row, value)),
        row_value(row_set(rows, row, value), row) == Some(value),
        forall|other: u32|
            other != row ==> #[trigger] row_value(row_set(rows, row, value), other) == row_value(
                rows,
                other,
            ),
{
    lemma_slot(rows, row, 0);
    let i = row_slot(rows, row, 0);
    let now = row_set(rows, row, value);
    let known = i < rows.len() && rows[i].0 == row;
    assert(rows_in_order(now)) by {
        assert forall|a: int, b: int| 0 <= a < b < now.len() implies (#[trigger] now[a]).0 < (
        #[trigger] now[b]).0 by {
            let p = if known || a < i {
                a
            } else {
                a - 1
            };
            let q = if known || b < i {
                b
            } else {
                b - 1
            };
            if known {
                assert(rows[a].0 < rows[b].0);
            } else if a != i && b != i {
                assert(rows[p].0 < rows[q].0);
            } else if a == i {
                assert(now[b] == rows[b - 1]);
            } else {
                assert(now[a] == rows[a]);
            }
        }
    }
    assert(now[i] == (row, value));
    assert(now.contains((row, value)));
    law_row_value(now, row);
    assert forall|other: u32| other != row implies #[trigger] row_value(now, other) == row_value(
        rows,
        other,
    ) by {
        law_row_value(now, other);
        law_row_value(rows, other);
        match row_value(now, other) {
            Some(v) => {
                let k = now.index_of((other, v));
                let j = if known || k < i {
                    k
                } else {
                    k - 1
                };
                assert(rows[j] == (other, v));
                assert(rows.contains((other, v)));
            },
            None => {
                match row_value(rows, other) {
                    Some(v) => {
                        let j = rows.index_of((other, v));
                        let k = if known || j < i {
                            j
                        } else {
                            j + 1
                        };
                        assert(now[k] == (other, v));
                    },
                    None => {},
                }
            },
        }
    }
}

/// The range starts on the row before, and is still open where the row's text
/// starts.
pub open spec fn opening(range: (Point, Point), row: u32, prev_row: u32, row_start: Point) -> bool {
    range.0.row < row && range.0.row == prev_row && point_lt(row_start, range.1)
}

/// The range starts before the row, and ends on the row before or later, but no
/// later than where the row's text starts.
pub open spec fn closing(range: (Point, Point), row: u32, prev_row: u32, row_start: Point) -> bool {
    range.0.row < row && range.1.row >= prev_row && !point_lt(row_start, range.1)
}

proof fn lemma_opens(
    ranges: Seq<(Point, Point)>,
    row: u32,
    prev_row: u32,
    row_start: Point,
    n: int,
)
    requires
        0 <= n <= ranges.len(),
    ensures
        opens_before(ranges, row, prev_row, row_start, n) <==> exists|k: int|
            0 <= k < n && opening(#[trigger] ranges[k], row, prev_row, row_start),
    decreases n,
{
    if n > 0 {
        lemma_opens(ranges, row, prev_row, row_start, n - 1);
        if opening(ranges[n - 1], row, prev_row, row_start) {
            assert(opens_before(ranges, row, prev_row, row_start, n));
        }
    }
}

proof fn lemma_outdent(
    ranges: Seq<(Point, Point)>,
    row: u32,
    prev_row: u32,
    row_start: Point,
    n: int,
)
    requires
        0 <= n <= ranges.len(),
    ensures
        ({
            let found = outdent_row(ranges, row, prev_row, row_start, n);
            &&& forall|k: int|
                0 <= k < n && closing(#[trigger] ranges[k], row, prev_row, row_start) ==> found
                    <= ranges[k].0.row
            &&& found < u32::MAX ==> exists|k: int|
                0 <= k < n && closing(#[trigger] ranges[k], row, prev_row, row_start)
                    && ranges[k].0.row == found
        }),
    decreases n,
{
    if n > 0 {
        lemma_outdent(ranges, row, prev_row, row_start, n - 1);
        let found = outdent_row(ranges, row, prev_row, row_start, n);
        let before = outdent_row(ranges, row, prev_row, row_start, n - 1);
        if found == before && found < u32::MAX {
            let k = choose|k: int|
                0 <= k < n - 1 && closing(#[trigger] ranges[k], row, prev_row, row_start)
                    && ranges[k].0.row == before;
            assert(closing(ranges[k], row, prev_row, row_start));
        }
        if found != before {
            assert(closing(ranges[n - 1], row, prev_row, row_start));
        }
    }
}

/// How a row is to be indented, going by the row before it. If the only ranges
/// that close between the two start on the row before, it stands where that row
/// does. Else, if a range opens on the row before, it stands one level further
/// right than that row. Else, if a range closes that starts on an earlier row, it
/// stands where the first such row does. Else it stands where the row before does.
pub proof fn law_suggestion(
    ranges: Seq<(Point, Point)>,
    row: u32,
    prev_row: u32,
    row_start: Point,
)
    requires
        prev_row < u32::MAX,
    ensures
        ({
            let found = suggestion_for(ranges, row, prev_row, row_start);
            let opens = exists|k: int|
                0 <= k < ranges.len() && opening(#[trigger] ranges[k], row, prev_row, row_start);
            let closes_here = exists|k: int|
                0 <= k < ranges.len() && closing(#[trigger] ranges[k], row, prev_row, row_start)
                    && ranges[k].0.row == prev_row;
            let closes_earlier = exists|k: int|
                0 <= k < ranges.len() && closing(#[trigger] ranges[k], row, prev_row, row_start)
                    && ranges[k].0.row < prev_row;
            &&& found.indent <==> opens && (closes_earlier || !closes_here)
            &&& found.indent || !closes_earlier ==> found.basis_row == prev_row
            &&& !found.indent && closes_earlier ==> {
                &&& found.basis_row < prev_row
                &&& exists|k: int|
                    0 <= k < ranges.len() && closing(#[trigger] ranges[k], row, prev_row, row_start)
                        && ranges[k].0.row == found.basis_row
                &&& forall|k: int|
                    0 <= k < ranges.len() && closing(#[trigger] ranges[k], row, prev_row, row_start)
                        ==> found.basis_row <= ranges[k].0.row
            }
        }),
{
    let n = ranges.len() as int;
    lemma_opens(ranges, row, prev_row, row_start, n);
    lemma_outdent(ranges, row, prev_row, row_start, n);
}

/// Where the rows of a range are to be indented, each goes by the row before it,
/// the first by the one given, and each by where its own text starts.
pub proof fn law_suggestions_go_row_by_row(
    ranges: Seq<(Point, Point)>,
    text: Seq<u8>,
    start: u32,
    end: u32,
    prev_row: u32,
    k: int,
)
    requires
        0 <= k < end - start,
    ensures
        suggestions_for(ranges, text, start, end, prev_row).len() == end - start,
        exists|row: u32, before: u32, column: u32|
            {
                &&& row == start + k
                &&& k == 0 ==> before == prev_row
                &&& k > 0 ==> before == row - 1
                &&& column == indent_of(text, row as int)
                &&& suggestions_for(ranges, text, start, end, prev_row)[k]
                    == #[trigger] suggestion_for(ranges, row, before, Point { row, column })
            },
{
    let row = (start + k) as u32;
    let before = if k == 0 {
        prev_row
    } else {
        (start + k - 1) as u32
    };
    let column = indent_of(text, start + k) as u32;
    assert(suggestions_for(ranges, text, start, end, prev_row)[k] == suggestion_for(
        ranges,
        row,
        before,
        Point { row, column },
    ));
}

/// The row that the first of some rows goes by is the closest one before it with
/// anything but white space on it.
pub proof fn law_closest_row_that_is_not_blank(text: Seq<u8>, row: int)
    requires
        0 <= row <= u32::MAX,
    ensures
        match non_blank_before(text, row) {
            Some(found) => {
                &&& found < row
                &&& !blank_line(text, found as int)
                &&& forall|r: int| found < r < row ==> #[trigger] blank_line(text, r)
            },
            None => forall|r: int| 0 <= r < row ==> #[trigger] blank_line(text, r),
        },
    decreases row,
{
    if row > 0 && blank_line(text, row - 1) {
        law_closest_row_that_is_not_blank(text, row - 1);
    }
}

/// The capture is one that marks the end of what is indented.
pub open spec fn marks_end(capture: Capture, indent: Option<u32>, end: Option<u32>) -> bool {
    indent != Some(capture.index) && end == Some(capture.index)
}

proof fn lemma_match_range(
    captures: Seq<Capture>,
    indent: Option<u32>,
    end: Option<u32>,
    n: int,
)
    requires
        0 <= n <= captures.len(),
    ensures
        is_match_range(match_range(captures, indent, end, n), captures.take(n), indent, end),
    decreases n,
{
    if n > 0 {
        lemma_match_range(captures, indent, end, n - 1);
        let past = captures.take(n - 1);
        let now = captures.take(n);
        let capture = captures[n - 1];
        let found = match_range(captures, indent, end, n - 1);
        assert(now[n - 1] == capture);
        assert forall|i: int| 0 <= i < n - 1 implies now[i] == past[i] by {}
        if marks_end(capture, indent, end) {
            assert(last_end(now, indent, end, n - 1));
            if found.0 is Some {
                let i = choose|i: int| first_indent(past, indent, i);
                assert(first_indent(now, indent, i));
            }
        } else if indent == Some(capture.index) {
            if found.0 is Some {
                let i = choose|i: int| first_indent(past, indent, i);
                assert(first_indent(now, indent, i));
            } else {
                assert(first_indent(now, indent, n - 1));
            }
            if exists|j: int| last_end(past, indent, end, j) {
                let j = choose|j: int| last_end(past, indent, end, j);
                assert(last_end(now, indent, end, j));
            }
        } else {
            if found.0 is Some {
                let i = choose|i: int| first_indent(past, indent, i);
                assert(first_indent(now, indent, i));
            }
            if exists|j: int| last_end(past, indent, end, j) {
                let j = choose|j: int| last_end(past, indent, end, j);
                assert(last_end(now, indent, end, j));
            }
        }
    }
}

/// The capture at `i` is the first one to be indented.
pub open spec fn first_indent(captures: Seq<Capture>, indent: Option<u32>, i: int) -> bool {
    &&& 0 <= i < captures.len()
    &&& indent == Some(captures[i].index)
    &&& forall|j: int| 0 <= j < i ==> indent != Some((#[trigger] captures[j]).index)
}

/// The capture at `i` is the last one that marks the end of what is indented.
pub open spec fn last_end(
    captures: Seq<Capture>,
    indent: Option<u32>,
    end: Option<u32>,
    i: int,
) -> bool {
    &&& 0 <= i < captures.len()
    &&& marks_end(captures[i], indent, end)
    &&& forall|j: int|
        i < j < captures.len() ==> !marks_end(#[trigger] captures[j], indent, end)
}

/// What a match asks to indent starts with its first node to be indented, and ends
/// before its last closing node, or with the first node to be indented if there is
/// no closing one.
pub open spec fn is_match_range(
    found: (Option<Point>, Option<Point>),
    captures: Seq<Capture>,
    indent: Option<u32>,
    end: Option<u32>,
) -> bool {
    &&& match found.0 {
        Some(start) => exists|i: int| #[trigger]
            first_indent(captures, indent, i) && start == captures[i].start_point,
        None => forall|i: int|
            0 <= i < captures.len() ==> indent != Some((#[trigger] captures[i]).index),
    }
    &&& if exists|j: int| last_end(captures, indent, end, j) {
        exists|j: int| #[trigger]
            last_end(captures, indent, end, j) && found.1 == Some(captures[j].start_point)
    } else {
        &&& forall|j: int|
            0 <= j < captures.len() ==> !marks_end(#[trigger] captures[j], indent, end)
        &&& found.0 is None ==> found.1 is None
        &&& found.0 is Some ==> exists|i: int| #[trigger]
            first_indent(captures, indent, i) && found.1 == Some(captures[i].end_point)
    }
}

/// What a match asks to indent.
pub proof fn law_match_range(captures: Seq<Capture>, indent: Option<u32>, end: Option<u32>)
    ensures
        is_match_range(
            match_range(captures, indent, end, captures.len() as int),
            captures,
            indent,
            end,
        ),
{
    lemma_match_range(captures, indent, end, captures.len() as int);
    assert(captures.take(captures.len() as int) =~= captures);
}

/// The match asks to indent the range, which takes more than one row.
pub open spec fn asks_for(
    captures: Seq<Capture>,
    indent: Option<u32>,
    end: Option<u32>,
    range: (Point, Point),
) -> bool {
    &&& match_range(captures, indent, end, captures.len() as int) == (
        Some(range.0),
        Some(range.1),
    )
    &&& range.0.row != range.1.row
}

/// The ranges are in the order of their starts, and no two start together.
pub open spec fn starts_in_order(ranges: Seq<(Point, Point)>) -> bool {
    forall|i: int, j: int|
        0 <= i < j < ranges.len() ==> point_lt((#[trigger] ranges[i]).0, (#[trigger] ranges[j]).0)
}

proof fn lemma_range_slot(ranges: Seq<(Point, Point)>, start: Point, i: int)
    requires
        starts_in_order(ranges),
        0 <= i <= ranges.len(),
        forall|j: int| 0 <= j < i ==> point_lt((#[trigger] ranges[j]).0, start),
    ensures
        i <= range_slot(ranges, start, i) <= ranges.len(),
        forall|j: int|
            0 <= j < range_slot(ranges, start, i) ==> point_lt((#[trigger] ranges[j]).0, start),
        forall|j: int|
            range_slot(ranges, start, i) <= j < ranges.len() ==> !point_lt(
                (#[trigger] ranges[j]).0,
                start,
            ),
    decreases ranges.len() - i,
{
    if i < ranges.len() && point_lt(ranges[i].0, start) {
        lemma_range_slot(ranges, start, i + 1);
    } else {
        assert forall|j: int| i <= j < ranges.len() implies !point_lt(
            (#[trigger] ranges[j]).0,
            start,
        ) by {
            if i < j {
                assert(point_lt(ranges[i].0, ranges[j].0));
            }
        }
    }
}

/// A range is added to others: they stay in order, nothing gets lost, and of those
/// that start together the longest stays.
pub proof fn law_with_range(ranges: Seq<(Point, Point)>, range: (Point, Point))
    requires
        starts_in_order(ranges),
    ensures
        ({
            let now = with_range(ranges, range);
            &&& starts_in_order(now)
            &&& exists|k: int|
                0 <= k < now.len() && (#[trigger] now[k]).0 == range.0 && point_le(range.1, now[k].1)
            &&& forall|i: int|
                0 <= i < ranges.len() ==> exists|k: int|
                    0 <= k < now.len() && (#[trigger] now[k]).0 == (#[trigger] ranges[i]).0
                        && point_le(ranges[i].1, now[k].1)
            &&& forall|k: int|
                0 <= k < now.len() ==> #[trigger] now[k] == range || ranges.contains(now[k])
        }),
{
    lemma_range_slot(ranges, range.0, 0);
    let s = range_slot(ranges, range.0, 0);
    let now = with_range(ranges, range);
    let known = s < ranges.len() && ranges[s].0 == range.0;
    assert(now[s].0 == range.0 && point_le(range.1, now[s].1));
    assert forall|a: int, b: int| 0 <= a < b < now.len() implies point_lt(
        (#[trigger] now[a]).0,
        (#[trigger] now[b]).0,
    ) by {
        if known {
            assert(point_lt(ranges[a].0, ranges[b].0));
        } else {
            let p = if a < s {
                a
            } else {
                a - 1
            };
            let q = if b < s {
                b
            } else {
                b - 1
            };
            if a != s && b != s {
                assert(now[a] == ranges[p] && now[b] == ranges[q]);
                assert(point_lt(ranges[p].0, ranges[q].0));
            } else if a == s {
                assert(now[b] == ranges[b - 1]);
                assert(!point_lt(ranges[b - 1].0, range.0));
                if b - 1 > s {
                    assert(point_lt(ranges[s].0, ranges[b - 1].0));
                }
                assert(!point_lt(ranges[s].0, range.0));
            } else {
                assert(now[a] == ranges[a]);
            }
        }
    }
    assert forall|i: int| 0 <= i < ranges.len() implies exists|k: int|
        0 <= k < now.len() && (#[trigger] now[k]).0 == (#[trigger] ranges[i]).0 && point_le(
            ranges[i].1,
            now[k].1,
        ) by {
        let k = if known || i < s {
            i
        } else {
            i + 1
        };
        assert(now[k].0 == ranges[i].0);
    }
    assert forall|k: int| 0 <= k < now.len() implies #[trigger] now[k] == range || ranges.contains(
        now[k],
    ) by {
        if known {
            if k == s {
                assert(ranges[s].0 == range.0);
                if !point_lt(ranges[s].1, range.1) {
                    assert(now[k] == ranges[s]);
                }
            } else {
                assert(now[k] == ranges[k]);
            }
        } else if k < s {
            assert(now[k] == ranges[k]);
        } else if k > s {
            assert(now[k] == ranges[k - 1]);
        }
    }
}

/// What matches ask to indent: the ranges are those of matches, in the order of
/// their starts and no two with the same one, and where a match asks for a range, a
/// range with its start is there that is as long or longer.
pub proof fn law_indented_ranges(
    matches: Seq<Seq<Capture>>,
    indent: Option<u32>,
    end: Option<u32>,
    n: int,
)
    requires
        0 <= n <= matches.len(),
    ensures
        ({
            let ranges = indented_ranges(matches, indent, end, n);
            &&& starts_in_order(ranges)
            &&& forall|k: int|
                0 <= k < ranges.len() ==> exists|i: int|
                    0 <= i < n && asks_for(
                        #[trigger] matches[i],
                        indent,
                        end,
                        #[trigger] ranges[k],
                    )
            &&& forall|i: int, range: (Point, Point)|
                0 <= i < n && #[trigger] asks_for(matches[i], indent, end, range) ==> exists|k: int|
                    0 <= k < ranges.len() && (#[trigger] ranges[k]).0 == range.0 && point_le(
                        range.1,
                        ranges[k].1,
                    )
        }),
    decreases n,
{
    let ranges = indented_ranges(matches, indent, end, n);
    if n > 0 {
        law_indented_ranges(matches, indent, end, n - 1);
        let before = indented_ranges(matches, indent, end, n - 1);
        let m = matches[n - 1];
        let found = match_range(m, indent, end, m.len() as int);
        if found.0 is Some && found.1 is Some && (found.0->0).row != (found.1->0).row {
            let range = (found.0->0, found.1->0);
            law_with_range(before, range);
            assert(asks_for(m, indent, end, range));
            assert forall|k: int| 0 <= k < ranges.len() implies exists|i: int|
                0 <= i < n && asks_for(
                    #[trigger] matches[i],
                    indent,
                    end,
                    #[trigger] ranges[k],
                ) by {
                if ranges[k] == range {
                    assert(asks_for(matches[n - 1], indent, end, ranges[k]));
                } else {
                    let j = before.index_of(ranges[k]);
                    assert(before[j] == ranges[k]);
                    let i = choose|i: int|
                        0 <= i < n - 1 && asks_for(#[trigger] matches[i], indent, end, before[j]);
                    assert(asks_for(matches[i], indent, end, ranges[k]));
                }
            }
            assert forall|i: int, r: (Point, Point)|
                0 <= i < n && #[trigger] asks_for(matches[i], indent, end, r) implies exists|k: int|
                0 <= k < ranges.len() && (#[trigger] ranges[k]).0 == r.0 && point_le(
                    r.1,
                    ranges[k].1,
                ) by {
                if i < n - 1 {
                    let j = choose|j: int|
                        0 <= j < before.len() && (#[trigger] before[j]).0 == r.0 && point_le(
                            r.1,
                            before[j].1,
                        );
                    let k = choose|k: int|
                        0 <= k < ranges.len() && (#[trigger] ranges[k]).0 == before[j].0
                            && point_le(before[j].1, ranges[k].1);
                    assert(ranges[k].0 == r.0);
                } else {
                    assert(r == range);
                }
            }
        } else {
            assert(ranges == before);
            assert forall|k: int| 0 <= k < ranges.len() implies exists|i: int|
                0 <= i < n && asks_for(
                    #[trigger] matches[i],
                    indent,
                    end,
                    #[trigger] ranges[k],
                ) by {
                let i = choose|i: int|
                    0 <= i < n - 1 && asks_for(#[trigger] matches[i], indent, end, before[k]);
                assert(asks_for(matches[i], indent, end, ranges[k]));
            }
        }
    }
}

/// What is suggested for some rows of a text with a syntax tree: it goes by what the
/// language's query for indents matches from the closest row before them that is
/// not blank, or from their first row if there is none, to their last.
pub proof fn law_suggested(
    snapshot: SnapshotModel,
    start: u32,
    end: u32,
    tree: Tree,
    first: u32,
    prev: u32,
)
    requires
        snapshot.language is Some,
        snapshot.tree == Some(tree),
        match non_blank_before(snapshot.text, start as int) {
            Some(row) => first == row && prev == row,
            None => first == start && prev == 0,
        },
    ensures
        ({
            let query = (snapshot.language->0).indents_query;
            let matches = matches_in_rows(query, tree, snapshot.text, first, end);
            let ranges = indented_ranges(
                matches,
                capture_index(query, "indent"@),
                capture_index(query, "end"@),
                matches.len() as int,
            );
            suggested(snapshot, start, end) == Some(
                suggestions_for(ranges, snapshot.text, start, end, prev),
            )
        }),
{
}

/// Without a language or a tree nothing is suggested.
pub proof fn law_nothing_suggested_without_a_tree(snapshot: SnapshotModel, start: u32, end: u32)
    requires
        snapshot.language is None || snapshot.tree is None,
    ensures
        suggested(snapshot, start, end) is None,
{
}

/// There is a suggestion for each row of a range.
proof fn lemma_suggested_len(snapshot: SnapshotModel, range: (int, int))
    requires
        0 <= range.0 <= range.1 <= u32::MAX,
    ensures
        suggested_or_nothing(snapshot, range).len() <= range.1 - range.0,
        snapshot.language is Some && snapshot.tree is Some ==> suggested_or_nothing(
            snapshot,
            range,
        ).len() == range.1 - range.0,
{
}

proof fn lemma_new_in_order(
    snapshot: SnapshotModel,
    before: Option<Seq<(u32, u32)>>,
    columns: Seq<(u32, u32)>,
    range: (int, int),
    n: int,
)
    requires
        rows_in_order(columns),
    ensures
        rows_in_order(new_columns_in(snapshot, before, columns, range, n)),
    decreases n,
{
    if n > 0 {
        lemma_new_in_order(snapshot, before, columns, range, n - 1);
        let past = new_columns_in(snapshot, before, columns, range, n - 1);
        let suggestion = suggested_or_nothing(snapshot, range)[n - 1];
        let basis = match row_value(past, suggestion.basis_row) {
            Some(column) => column,
            None => indent_of(snapshot.text, suggestion.basis_row as int) as u32,
        };
        law_row_set(past, (range.0 + n - 1) as u32, indented(basis, suggestion));
    }
}

/// The column that one more row should have after an edit: that of the row that it
/// goes by, as it will be or as it is, and four more if it is to be indented. The
/// row gets that column, unless the text before the edit had suggested the same;
/// nothing else changes.
pub proof fn law_new_column(
    snapshot: SnapshotModel,
    before: Option<Seq<(u32, u32)>>,
    columns: Seq<(u32, u32)>,
    range: (int, int),
    n: int,
)
    requires
        rows_in_order(columns),
        0 < n <= suggested_or_nothing(snapshot, range).len(),
        0 <= range.0,
        range.0 + n <= u32::MAX,
    ensures
        ({
            let past = new_columns_in(snapshot, before, columns, range, n - 1);
            let now = new_columns_in(snapshot, before, columns, range, n);
            let suggestion = suggested_or_nothing(snapshot, range)[n - 1];
            let row = (range.0 + n - 1) as u32;
            let basis = match row_value(past, suggestion.basis_row) {
                Some(column) => column as int,
                None => indent_of(snapshot.text, suggestion.basis_row as int),
            };
            let wanted = if suggestion.indent {
                basis + 4
            } else {
                basis
            };
            wanted <= u32::MAX ==> if before is Some && row_value(before->0, row) == Some(
                wanted as u32,
            ) {
                now == past
            } else {
                &&& row_value(now, row) == Some(wanted as u32)
                &&& forall|other: u32|
                    other != row ==> #[trigger] row_value(now, other) == row_value(past, other)
            }
        }),
{
    lemma_new_in_order(snapshot, before, columns, range, n - 1);
    let past = new_columns_in(snapshot, before, columns, range, n - 1);
    let suggestion = suggested_or_nothing(snapshot, range)[n - 1];
    let basis = match row_value(past, suggestion.basis_row) {
        Some(column) => column,
        None => indent_of(snapshot.text, suggestion.basis_row as int) as u32,
    };
    law_indent_adds_one_level(basis, suggestion);
    law_row_set(past, (range.0 + n - 1) as u32, indented(basis, suggestion));
}

proof fn lemma_old_in_order(
    before: SnapshotModel,
    moved: Seq<(u32, u32)>,
    columns: Seq<(u32, u32)>,
    range: (int, int),
    n: int,
)
    requires
        rows_in_order(columns),
    ensures
        rows_in_order(old_columns_in(before, moved, columns, range, n)),
    decreases n,
{
    if n > 0 {
        lemma_old_in_order(before, moved, columns, range, n - 1);
        let past = old_columns_in(before, moved, columns, range, n - 1);
        let suggestion = suggested_or_nothing(before, range)[n - 1];
        let basis = match row_value(moved, suggestion.basis_row) {
            Some(row) => row_value(past, row),
            None => None,
        };
        let column = match basis {
            Some(column) => column,
            None => indent_of(before.text, suggestion.basis_row as int) as u32,
        };
        match row_value(moved, (range.0 + n - 1) as u32) {
            Some(row) => {
                law_row_set(past, row, indented(column, suggestion));
            },
            None => {},
        }
    }
}

/// The column that the text before an edit suggested for one more row, kept under
/// where the row is now: that of the row that it goes by, as suggested or as it was,
/// and four more if it was to be indented.
pub proof fn law_old_column(
    before: SnapshotModel,
    moved: Seq<(u32, u32)>,
    columns: Seq<(u32, u32)>,
    range: (int, int),
    n: int,
)
    requires
        rows_in_order(columns),
        0 < n <= suggested_or_nothing(before, range).len(),
        0 <= range.0,
        range.0 + n <= u32::MAX,
    ensures
        ({
            let past = old_columns_in(before, moved, columns, range, n - 1);
            let now = old_columns_in(before, moved, columns, range, n);
            let suggestion = suggested_or_nothing(before, range)[n - 1];
            let here = row_value(moved, (range.0 + n - 1) as u32);
            let base = row_value(moved, suggestion.basis_row);
            let basis = if base is Some && row_value(past, base->0) is Some {
                row_value(past, base->0)->0 as int
            } else {
                indent_of(before.text, suggestion.basis_row as int)
            };
            let wanted = if suggestion.indent {
                basis + 4
            } else {
                basis
            };
            &&& here is None ==> now == past
            &&& here is Some && wanted <= u32::MAX ==> {
                &&& row_value(now, here->0) == Some(wanted as u32)
                &&& forall|other: u32|
                    other != here->0 ==> #[trigger] row_value(now, other) == row_value(past, other)
            }
        }),
{
    lemma_old_in_order(before, moved, columns, range, n - 1);
    let past = old_columns_in(before, moved, columns, range, n - 1);
    let suggestion = suggested_or_nothing(before, range)[n - 1];
    let basis = match row_value(moved, suggestion.basis_row) {
        Some(row) => row_value(past, row),
        None => None,
    };
    let column = match basis {
        Some(column) => column,
        None => indent_of(before.text, suggestion.basis_row as int) as u32,
    };
    law_indent_adds_one_level(column, suggestion);
    match row_value(moved, (range.0 + n - 1) as u32) {
        Some(row) => {
            law_row_set(past, row, indented(column, suggestion));
        },
        None => {},
    }
}

proof fn lemma_new_cover_in(
    snapshot: SnapshotModel,
    before: Option<Seq<(u32, u32)>>,
    columns: Seq<(u32, u32)>,
    range: (int, int),
    n: int,
)
    requires
        rows_in_order(columns),
        0 <= n <= suggested_or_nothing(snapshot, range).len(),
        0 <= range.0,
        range.0 + n <= u32::MAX,
    ensures
        ({
            let now = new_columns_in(snapshot, before, columns, range, n);
            &&& rows_in_order(now)
            &&& forall|r: u32|
                range.0 <= r < range.0 + n ==> #[trigger] row_value(now, r) is Some || (before
                    is Some && row_value(before->0, r) is Some)
            &&& forall|r: u32|
                !(range.0 <= r < range.0 + n) ==> #[trigger] row_value(now, r) == row_value(
                    columns,
                    r,
                )
            &&& forall|r: u32|
                row_value(columns, r) is Some ==> #[trigger] row_value(now, r) is Some
        }),
    decreases n,
{
    lemma_new_in_order(snapshot, before, columns, range, n);
    if n > 0 {
        lemma_new_cover_in(snapshot, before, columns, range, n - 1);
        let past = new_columns_in(snapshot, before, columns, range, n - 1);
        let suggestion = suggested_or_nothing(snapshot, range)[n - 1];
        let basis = match row_value(past, suggestion.basis_row) {
            Some(column) => column,
            None => indent_of(snapshot.text, suggestion.basis_row as int) as u32,
        };
        let row = (range.0 + n - 1) as u32;
        law_row_set(past, row, indented(basis, suggestion));
        let now = new_columns_in(snapshot, before, columns, range, n);
        assert forall|r: u32| range.0 <= r < range.0 + n implies #[trigger] row_value(now, r)
            is Some || (before is Some && row_value(before->0, r) is Some) by {
            if r != row {
                assert(row_value(past, r) is Some || (before is Some && row_value(before->0, r)
                    is Some));
            }
        }
        assert forall|r: u32| !(range.0 <= r < range.0 + n) implies #[trigger] row_value(now, r)
            == row_value(columns, r) by {
            assert(row_value(past, r) == row_value(columns, r));
        }
        assert forall|r: u32| row_value(columns, r) is Some implies #[trigger] row_value(now, r)
            is Some by {
            assert(row_value(past, r) is Some);
        }
    }
}

/// A row of one of the first `n` ranges.
pub open spec fn in_first(ranges: Seq<(int, int)>, n: int, r: u32) -> bool {
    exists|k: int| 0 <= k < n && (#[trigger] ranges[k]).0 <= r < ranges[k].1
}

/// The ranges are ranges of rows.
pub open spec fn of_rows(ranges: Seq<(int, int)>) -> bool {
    forall|k: int|
        0 <= k < ranges.len() ==> 0 <= (#[trigger] ranges[k]).0 <= ranges[k].1 <= u32::MAX
}

/// Every row of the ranges gets a column, unless one was suggested for it before the
/// edit; no other row's column changes, and none is taken away.
pub proof fn law_new_columns_cover(
    snapshot: SnapshotModel,
    before: Option<Seq<(u32, u32)>>,
    columns: Seq<(u32, u32)>,
    ranges: Seq<(int, int)>,
    n: int,
)
    requires
        rows_in_order(columns),
        of_rows(ranges),
        0 <= n <= ranges.len(),
        snapshot.language is Some,
        snapshot.tree is Some,
    ensures
        ({
            let now = new_columns(snapshot, before, columns, ranges, n);
            &&& rows_in_order(now)
            &&& forall|r: u32|
                in_first(ranges, n, r) ==> #[trigger] row_value(now, r) is Some || (before is Some
                    && row_value(before->0, r) is Some)
            &&& forall|r: u32|
                !in_first(ranges, n, r) ==> #[trigger] row_value(now, r) == row_value(columns, r)
            &&& forall|r: u32|
                row_value(columns, r) is Some ==> #[trigger] row_value(now, r) is Some
        }),
    decreases n,
{
    if n > 0 {
        law_new_columns_cover(snapshot, before, columns, ranges, n - 1);
        let past = new_columns(snapshot, before, columns, ranges, n - 1);
        let range = ranges[n - 1];
        assert(0 <= ranges[n - 1].0 <= ranges[n - 1].1 <= u32::MAX);
        lemma_suggested_len(snapshot, range);
        lemma_new_cover_in(snapshot, before, past, range, range.1 - range.0);
        let now = new_columns(snapshot, before, columns, ranges, n);
        assert forall|r: u32| in_first(ranges, n, r) implies #[trigger] row_value(now, r) is Some
            || (before is Some && row_value(before->0, r) is Some) by {
            let k = choose|k: int| 0 <= k < n && (#[trigger] ranges[k]).0 <= r < ranges[k].1;
            if k < n - 1 {
                assert(in_first(ranges, n - 1, r));
                assert(row_value(past, r) is Some || (before is Some && row_value(before->0, r)
                    is Some));
            }
        }
        assert forall|r: u32| !in_first(ranges, n, r) implies #[trigger] row_value(now, r)
            == row_value(columns, r) by {
            assert(!(ranges[n - 1].0 <= r < ranges[n - 1].1));
            if in_first(ranges, n - 1, r) {
                let k = choose|k: int|
                    0 <= k < n - 1 && (#[trigger] ranges[k]).0 <= r < ranges[k].1;
                assert(ranges[k].0 <= r < ranges[k].1);
            }
            assert(row_value(past, r) == row_value(columns, r));
        }
        assert forall|r: u32| row_value(columns, r) is Some implies #[trigger] row_value(now, r)
            is Some by {
            assert(row_value(past, r) is Some);
        }
    }
}

/// Values lie in the ranges that they are grouped into, and nothing else does.
proof fn lemma_in_ranges(values: Seq<u32>, max_len: int)
    requires
        max_len > 0,
        forall|i: int| 0 <= i < values.len() ==> #[trigger] values[i] < u32::MAX,
    ensures
        ({
            let ranges = ranges_of(values, max_len, values.len() as int);
            &&& of_rows(ranges)
            &&& forall|r: u32|
                #[trigger] values.contains(r) <==> in_first(ranges, ranges.len() as int, r)
        }),
{
    let n = values.len() as int;
    let ranges = ranges_of(values, max_len, n);
    law_ranges_hold_the_values(values, max_len, n);
    let ints = values.map_values(|value: u32| value as int);
    assert(values.take(n) =~= values);
    assert forall|r: u32| #[trigger] values.contains(r) <==> in_first(
        ranges,
        ranges.len() as int,
        r,
    ) by {
        lemma_turn(ranges, r as int);
        if values.contains(r) {
            let i = values.index_of(r);
            assert(ints[i] == r as int);
            assert(in_turn(ranges).contains(r as int));
        }
        if in_turn(ranges).contains(r as int) {
            let i = ints.index_of(r as int);
            assert(values[i] == r);
        }
    }
    assert forall|k: int| 0 <= k < ranges.len() implies 0 <= (#[trigger] ranges[k]).0
        <= ranges[k].1 <= u32::MAX by {
        assert(0 < ranges[k].1 - ranges[k].0);
        lemma_turn(ranges, ranges[k].0);
        lemma_turn(ranges, ranges[k].1 - 1);
        assert(ranges[k].0 <= ranges[k].0 < ranges[k].1);
        assert(ranges[k].0 <= ranges[k].1 - 1 < ranges[k].1);
        assert(ints.contains(ranges[k].0));
        assert(ints.contains(ranges[k].1 - 1));
        let i = ints.index_of(ranges[k].0);
        let j = ints.index_of(ranges[k].1 - 1);
        assert(values[j] < u32::MAX);
        assert(ints[i] == values[i] as int && ints[j] == values[j] as int);
    }
}

/// The numbers of some ranges are those that lie in one of them.
proof fn lemma_turn(ranges: Seq<(int, int)>, x: int)
    ensures
        in_turn(ranges).contains(x) <==> exists|k: int|
            0 <= k < ranges.len() && (#[trigger] ranges[k]).0 <= x < ranges[k].1,
    decreases ranges.len(),
{
    if ranges.len() > 0 {
        let rest = ranges.drop_last();
        let last = ranges.last();
        lemma_turn(rest, x);
        let a = in_turn(rest);
        let b = counted(last.0, last.1);
        if in_turn(ranges).contains(x) {
            let i = in_turn(ranges).index_of(x);
            if i < a.len() {
                assert(a[i] == x);
                assert(a.contains(x));
                let k = choose|k: int|
                    0 <= k < rest.len() && (#[trigger] rest[k]).0 <= x < rest[k].1;
                assert(ranges[k].0 <= x < ranges[k].1);
            } else {
                assert(b[i - a.len()] == x);
                assert(ranges[ranges.len() - 1].0 <= x < ranges[ranges.len() - 1].1);
            }
        }
        if exists|k: int| 0 <= k < ranges.len() && (#[trigger] ranges[k]).0 <= x < ranges[k].1 {
            let k = choose|k: int|
                0 <= k < ranges.len() && (#[trigger] ranges[k]).0 <= x < ranges[k].1;
            if k < rest.len() {
                assert(rest[k].0 <= x < rest[k].1);
                let i = a.index_of(x);
                assert(in_turn(ranges)[i] == x);
            } else {
                assert(b[x - last.0] == x);
                assert(in_turn(ranges)[a.len() + (x - last.0)] == x);
            }
        }
    }
}

/// The rows of inserted text are those from the row where a part of it starts to the
/// row where that part ends, both included.
pub proof fn law_inserted_rows(set: AnchorRangeSet, snapshot: SnapshotModel, n: int, r: u32)
    requires
        0 <= n <= set.0.entries@.len(),
    ensures
        inserted_rows(set, snapshot, n).contains(r) <==> exists|k: int|
            0 <= k < n && entry_row(
                snapshot,
                (#[trigger] set.0.entries@[k]).0.start,
                set.0.version@,
            ) <= r <= entry_row(snapshot, set.0.entries@[k].0.end, set.0.version@),
    decreases n,
{
    if n > 0 {
        law_inserted_rows(set, snapshot, n - 1, r);
        let start = entry_row(snapshot, set.0.entries@[n - 1].0.start, set.0.version@);
        let end = entry_row(snapshot, set.0.entries@[n - 1].0.end, set.0.version@);
        let a = inserted_rows(set, snapshot, n - 1);
        let b = row_run(start, end);
        let all = inserted_rows(set, snapshot, n);
        if all.contains(r) {
            let i = all.index_of(r);
            if i < a.len() {
                assert(a[i] == r);
            } else {
                assert(b[i - a.len()] == r);
            }
        }
        if a.contains(r) {
            let i = a.index_of(r);
            assert(all[i] == r);
        }
        if start <= r <= end {
            assert(b[r - start] == r);
            assert(all[a.len() + (r - start)] == r);
        }
    }
}

/// The row of edited place `k` before the edit.
pub open spec fn row_then(request: AutoindentRequest, k: int) -> u32 {
    entry_row(
        request.before_edit@,
        request.edited.0.entries@[k].0,
        request.edited.0.version@,
    )
}

/// The row of edited place `k` now.
pub open spec fn row_now(request: AutoindentRequest, snapshot: SnapshotModel, k: int) -> u32 {
    entry_row(snapshot, request.edited.0.entries@[k].0, request.edited.0.version@)
}

/// Rows that were edited are kept in order, and each with where one of the edited
/// places on it is now.
pub proof fn law_moved_rows_are_edited(
    request: AutoindentRequest,
    snapshot: SnapshotModel,
    n: int,
)
    requires
        0 <= n <= request.edited.0.entries@.len(),
    ensures
        rows_in_order(moved_rows(request, snapshot, n)),
        forall|r: u32| #[trigger]
            row_value(moved_rows(request, snapshot, n), r) is Some ==> exists|k: int|
                0 <= k < n && #[trigger] row_then(request, k) == r && row_value(
                    moved_rows(request, snapshot, n),
                    r,
                ) == Some(row_now(request, snapshot, k)),
    decreases n,
{
    if n > 0 {
        law_moved_rows_are_edited(request, snapshot, n - 1);
        let past = moved_rows(request, snapshot, n - 1);
        let moved = moved_rows(request, snapshot, n);
        let then = row_then(request, n - 1);
        let now = row_now(request, snapshot, n - 1);
        law_row_set(past, then, now);
        assert(moved == row_set(past, then, now));
        assert forall|r: u32| #[trigger] row_value(moved, r) is Some implies exists|k: int|
            0 <= k < n && #[trigger] row_then(request, k) == r && row_value(moved, r) == Some(
                row_now(request, snapshot, k),
            ) by {
            if r == then {
                assert(row_then(request, n - 1) == r);
            } else {
                assert(row_value(past, r) is Some);
                let k = choose|k: int|
                    0 <= k < n - 1 && #[trigger] row_then(request, k) == r && row_value(past, r)
                        == Some(row_now(request, snapshot, k));
                assert(row_then(request, k) == r);
            }
        }
    }
}

/// Each row that was edited is kept with where it is now; where two places were on
/// one row, the later one counts.
pub proof fn law_edited_rows_are_moved(
    request: AutoindentRequest,
    snapshot: SnapshotModel,
    n: int,
    k: int,
)
    requires
        0 <= k < n <= request.edited.0.entries@.len(),
        forall|j: int| k < j < n ==> #[trigger] row_then(request, j) != row_then(request, k),
    ensures
        row_value(moved_rows(request, snapshot, n), row_then(request, k)) == Some(
            row_now(request, snapshot, k),
        ),
    decreases n,
{
    law_moved_rows_are_edited(request, snapshot, n - 1);
    let past = moved_rows(request, snapshot, n - 1);
    law_row_set(past, row_then(request, n - 1), row_now(request, snapshot, n - 1));
    if k < n - 1 {
        law_edited_rows_are_moved(request, snapshot, n - 1, k);
        assert(row_then(request, n - 1) != row_then(request, k));
    }
}

/// A row that is kept is one where the text was edited.
proof fn lemma_moved_entry(
    request: AutoindentRequest,
    snapshot: SnapshotModel,
    n: int,
    i: int,
) -> (k: int)
    requires
        0 <= n <= request.edited.0.entries@.len(),
        0 <= i < moved_rows(request, snapshot, n).len(),
    ensures
        0 <= k < n,
        moved_rows(request, snapshot, n)[i].1 == row_now(request, snapshot, k),
{
    law_moved_rows_are_edited(request, snapshot, n);
    let moved = moved_rows(request, snapshot, n);
    let r = moved[i].0;
    law_row_value(moved, r);
    assert(moved.contains((r, moved[i].1)));
    assert(row_value(moved, r) is Some);
    choose|k: int|
        0 <= k < n && #[trigger] row_then(request, k) == r && row_value(moved, r) == Some(
            row_now(request, snapshot, k),
        )
}

/// The row is one of those where text was inserted by an edit.
pub open spec fn newly_inserted(
    request: AutoindentRequest,
    snapshot: SnapshotModel,
    r: u32,
) -> bool {
    match request.inserted {
        Some(set) => exists|k: int|
            0 <= k < set.0.entries@.len() && entry_row(
                snapshot,
                (#[trigger] set.0.entries@[k]).0.start,
                set.0.version@,
            ) <= r <= entry_row(snapshot, set.0.entries@[k].0.end, set.0.version@),
        None => false,
    }
}

/// The row is one of those where the text was edited.
pub open spec fn newly_edited(
    request: AutoindentRequest,
    snapshot: SnapshotModel,
    r: u32,
) -> bool {
    let set = request.edited.0;
    exists|k: int|
        0 <= k < set.entries@.len() && entry_row(
            snapshot,
            (#[trigger] set.entries@[k]).0,
            set.version@,
        ) == r
}

/// The rows of a request fit into numbers, the one after the last included.
pub open spec fn rows_end(request: AutoindentRequest, snapshot: SnapshotModel) -> bool {
    let set = request.edited.0;
    &&& forall|k: int|
        0 <= k < set.entries@.len() ==> entry_row(
            snapshot,
            (#[trigger] set.entries@[k]).0,
            set.version@,
        ) < u32::MAX
    &&& request.inserted matches Some(set) ==> forall|k: int|
        0 <= k < set.0.entries@.len() ==> entry_row(
            snapshot,
            (#[trigger] set.0.entries@[k]).0.end,
            set.0.version@,
        ) < u32::MAX
}

/// After an edit every row with inserted text gets a column; no row gets another one
/// but those with inserted text and those where the text was edited; and no column
/// is taken away.
pub proof fn law_inserted_rows_are_indented(
    request: AutoindentRequest,
    snapshot: SnapshotModel,
    columns: Seq<(u32, u32)>,
)
    requires
        rows_in_order(columns),
        snapshot.language is Some,
        snapshot.tree is Some,
        rows_end(request, snapshot),
    ensures
        ({
            let now = request_columns(request, snapshot, columns);
            &&& rows_in_order(now)
            &&& forall|r: u32|
                newly_inserted(request, snapshot, r) ==> #[trigger] row_value(now, r) is Some
            &&& forall|r: u32|
                !newly_inserted(request, snapshot, r) && !newly_edited(request, snapshot, r)
                    ==> #[trigger] row_value(now, r) == row_value(columns, r)
            &&& forall|r: u32|
                row_value(columns, r) is Some ==> #[trigger] row_value(now, r) is Some
        }),
{
    let max = MAX_ROWS_AT_ONCE as int;
    let edits = request.edited.0;
    let moved = moved_rows(request, snapshot, edits.entries@.len() as int);
    let old_rows = moved.map_values(|e: (u32, u32)| e.0);
    let new_rows = moved.map_values(|e: (u32, u32)| e.1);
    let old_ranges = ranges_of(old_rows, max, old_rows.len() as int);
    let new_ranges = ranges_of(new_rows, max, new_rows.len() as int);
    let before = old_columns(request.before_edit@, moved, old_ranges, old_ranges.len() as int);
    let m = new_ranges.len() as int;
    let edited = new_columns(snapshot, Some(before), columns, new_ranges, m);
    assert forall|i: int| 0 <= i < new_rows.len() implies #[trigger] new_rows[i] < u32::MAX
        && newly_edited(request, snapshot, new_rows[i]) by {
        let k = lemma_moved_entry(request, snapshot, edits.entries@.len() as int, i);
        assert(new_rows[i] == row_now(request, snapshot, k));
        assert(edits.entries@[k] == edits.entries@[k]);
    }
    lemma_in_ranges(new_rows, max);
    law_new_columns_cover(snapshot, Some(before), columns, new_ranges, m);
    let now = request_columns(request, snapshot, columns);
    assert forall|r: u32| !newly_edited(request, snapshot, r) implies #[trigger] row_value(
        edited,
        r,
    ) == row_value(columns, r) by {
        if in_first(new_ranges, m, r) {
            assert(new_rows.contains(r));
            let i = new_rows.index_of(r);
            assert(newly_edited(request, snapshot, new_rows[i]));
        }
    }
    match request.inserted {
        Some(set) => {
            let n = set.0.entries@.len() as int;
            let rows = inserted_rows(set, snapshot, n);
            let ranges = ranges_of(rows, max, rows.len() as int);
            assert forall|i: int| 0 <= i < rows.len() implies #[trigger] rows[i] < u32::MAX by {
                law_inserted_rows(set, snapshot, n, rows[i]);
                assert(rows.contains(rows[i]));
            }
            lemma_in_ranges(rows, max);
            law_new_columns_cover(snapshot, None, edited, ranges, ranges.len() as int);
            assert forall|r: u32| newly_inserted(request, snapshot, r) implies #[trigger] row_value(
                now,
                r,
            ) is Some by {
                law_inserted_rows(set, snapshot, n, r);
                assert(rows.contains(r));
            }
            assert forall|r: u32|
                !newly_inserted(request, snapshot, r) && !newly_edited(
                    request,
                    snapshot,
                    r,
                ) implies #[trigger] row_value(now, r) == row_value(columns, r) by {
                law_inserted_rows(set, snapshot, n, r);
                assert(!rows.contains(r));
                assert(row_value(edited, r) == row_value(columns, r));
            }
            assert forall|r: u32| row_value(columns, r) is Some implies #[trigger] row_value(now, r)
                is Some by {
                assert(row_value(edited, r) is Some);
            }
        },
        None => {},
    }
}

/// The row of an entry of anchors is that of its place in the text.
pub proof fn law_entry_row(
    snapshot: SnapshotModel,
    entry: (usize, Bias),
    v: Version,
)
    ensures
        entry_row(snapshot, entry, v) == point_at(
            snapshot.text,
            anchor_offset(
                snapshot.cells,
                AnchorModel { offset: entry.0 as int, bias: entry.1, version: v },
            ),
        ).row,
{
}

/// Columns are looked for range by range, and within a range row by row; no more than
/// a hundred rows are looked at in one go.
pub proof fn law_columns_range_by_range(
    snapshot: SnapshotModel,
    before: Option<Seq<(u32, u32)>>,
    moved: Seq<(u32, u32)>,
    columns: Seq<(u32, u32)>,
    ranges: Seq<(int, int)>,
    n: int,
)
    requires
        0 <= n < ranges.len(),
        0 <= ranges[n].0 <= ranges[n].1 <= u32::MAX,
        snapshot.language is Some,
        snapshot.tree is Some,
    ensures
        MAX_ROWS_AT_ONCE == 100,
        new_columns(snapshot, before, columns, ranges, 0) == columns,
        new_columns(snapshot, before, columns, ranges, n + 1) == new_columns_in(
            snapshot,
            before,
            new_columns(snapshot, before, columns, ranges, n),
            ranges[n],
            ranges[n].1 - ranges[n].0,
        ),
        new_columns_in(snapshot, before, columns, ranges[n], 0) == columns,
        old_columns(snapshot, moved, ranges, 0).len() == 0,
        old_columns(snapshot, moved, ranges, n + 1) == old_columns_in(
            snapshot,
            moved,
            old_columns(snapshot, moved, ranges, n),
            ranges[n],
            ranges[n].1 - ranges[n].0,
        ),
        old_columns_in(snapshot, moved, columns, ranges[n], 0) == columns,
{
    lemma_suggested_len(snapshot, ranges[n]);
}

/// What an edit asks for: where the text before it suggested other columns for the
/// rows that were edited than the text of now does, those of now; and then those of
/// the rows with inserted text.
pub proof fn law_request_in_steps(
    request: AutoindentRequest,
    snapshot: SnapshotModel,
    columns: Seq<(u32, u32)>,
    then: Seq<u32>,
    now: Seq<u32>,
)
    requires
        ({
            let moved = moved_rows(request, snapshot, request.edited.0.entries@.len() as int);
            &&& then.len() == moved.len()
            &&& now.len() == moved.len()
            &&& forall|i: int|
                0 <= i < moved.len() ==> (#[trigger] moved[i]).0 == then[i] && moved[i].1 == now[i]
        }),
    ensures
        ({
            let moved = moved_rows(request, snapshot, request.edited.0.entries@.len() as int);
            let a = ranges_of(then, 100, then.len() as int);
            let b = ranges_of(now, 100, now.len() as int);
            let before = old_columns(request.before_edit@, moved, a, a.len() as int);
            let edited = new_columns(snapshot, Some(before), columns, b, b.len() as int);
            match request.inserted {
                None => request_columns(request, snapshot, columns) == edited,
                Some(set) => {
                    let rows = inserted_rows(set, snapshot, set.0.entries@.len() as int);
                    let c = ranges_of(rows, 100, rows.len() as int);
                    request_columns(request, snapshot, columns) == new_columns(
                        snapshot,
                        None,
                        edited,
                        c,
                        c.len() as int,
                    )
                },
            }
        }),
{
    let moved = moved_rows(request, snapshot, request.edited.0.entries@.len() as int);
    assert(moved.map_values(|e: (u32, u32)| e.0) =~= then);
    assert(moved.map_values(|e: (u32, u32)| e.1) =~= now);
}

/// The edits that ask for lines to be indented are looked at one after the other, all
/// of them, and every row with text that one of them inserted gets a column.
pub proof fn law_requests_in_turn(
    requests: Seq<Arc<AutoindentRequest>>,
    snapshot: SnapshotModel,
    n: int,
)
    requires
        0 <= n <= requests.len(),
        snapshot.language is Some,
        snapshot.tree is Some,
        forall|k: int| 0 <= k < requests.len() ==> rows_end(*#[trigger] requests[k], snapshot),
    ensures
        rows_in_order(indent_columns(requests, snapshot, n)),
        indent_columns(requests, snapshot, 0).len() == 0,
        n > 0 ==> indent_columns(requests, snapshot, n) == request_columns(
            *requests[n - 1],
            snapshot,
            indent_columns(requests, snapshot, n - 1),
        ),
        forall|k: int, r: u32|
            0 <= k < n && #[trigger] newly_inserted(*requests[k], snapshot, r) ==> row_value(
                indent_columns(requests, snapshot, n),
                r,
            ) is Some,
    decreases n,
{
    if n > 0 {
        law_requests_in_turn(requests, snapshot, n - 1);
        let past = indent_columns(requests, snapshot, n - 1);
        let now = indent_columns(requests, snapshot, n);
        assert forall|request: AutoindentRequest| #[trigger]
            rows_end(request, snapshot) implies {
            let next = request_columns(request, snapshot, past);
            &&& rows_in_order(next)
            &&& forall|r: u32|
                newly_inserted(request, snapshot, r) ==> #[trigger] row_value(next, r) is Some
            &&& forall|r: u32| row_value(past, r) is Some ==> #[trigger] row_value(next, r) is Some
        } by {
            law_inserted_rows_are_indented(request, snapshot, past);
        }
        assert(rows_end(*requests[n - 1], snapshot));
        assert forall|k: int, r: u32|
            0 <= k < n && #[trigger] newly_inserted(*requests[k], snapshot, r) implies row_value(
            now,
            r,
        ) is Some by {
            if k < n - 1 {
                assert(row_value(past, r) is Some);
            }
        }
    }
}

} // verus!
