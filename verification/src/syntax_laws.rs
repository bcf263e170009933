//! What is found in a syntax tree: brackets around a range, and nodes larger than
//! one.

use tree_sitter::Tree;
use vstd::prelude::*;

use crate::buffer_syntax::{
    bracket_pair, brackets_around, first_capture, first_other, innermost, pair_len,
};
use crate::state::{State, current_tree};
use crate::syntax::{Capture, capture_index, enclosing_nodes, matches_in_bytes};

verus! {

/// The capture at `i` is the first one of a match that has the number `index`.
pub open spec fn leads(captures: Seq<Capture>, index: u32, i: int) -> bool {
    &&& 0 <= i < captures.len()
    &&& captures[i].index == index
    &&& forall|j: int| 0 <= j < i ==> (#[trigger] captures[j]).index != index
}

/// The match has a capture with the number `index`.
pub open spec fn names(captures: Seq<Capture>, index: u32) -> bool {
    exists|i: int| 0 <= i < captures.len() && (#[trigger] captures[i]).index == index
}

/// The pair is made of the first opening and the first closing capture of match
/// `m`.
pub open spec fn is_pair_of(
    pair: ((usize, usize), (usize, usize)),
    captures: Seq<Capture>,
    open: u32,
    close: u32,
) -> bool {
    exists|i: int, j: int|
        {
            &&& #[trigger] leads(captures, open, i)
            &&& #[trigger] leads(captures, close, j)
            &&& pair.0.0 == captures[i].start_byte
            &&& pair.0.1 == captures[i].end_byte
            &&& pair.1.0 == captures[j].start_byte
            &&& pair.1.1 == captures[j].end_byte
        }
}

/// The pair is the innermost one of the matches: one of them has it, none has a
/// shorter one, and none that comes before has one as short. Length is counted
/// from the start of the opening bracket to the end of the closing one; where the
/// brackets stand otherwise does not matter. There is no pair only if no match has
/// both brackets.
pub open spec fn is_innermost(
    found: Option<((usize, usize), (usize, usize))>,
    matches: Seq<Seq<Capture>>,
    open: u32,
    close: u32,
) -> bool {
    match found {
        Some(pair) => exists|m: int|
            {
                &&& 0 <= m < matches.len()
                &&& is_pair_of(pair, #[trigger] matches[m], open, close)
                &&& forall|k: int, i: int, j: int|
                    0 <= k < matches.len() && #[trigger] leads(matches[k], open, i)
                        && #[trigger] leads(matches[k], close, j) ==> {
                        let len = matches[k][j].end_byte - matches[k][i].start_byte;
                        &&& pair.1.1 - pair.0.0 <= len
                        &&& k < m ==> pair.1.1 - pair.0.0 < len
                    }
            },
        None => forall|k: int|
            0 <= k < matches.len() ==> !(names(#[trigger] matches[k], open) && names(
                matches[k],
                close,
            )),
    }
}

proof fn lemma_first_capture_leads(captures: Seq<Capture>, index: u32, i: int) -> (found: int)
    requires
        0 <= i <= captures.len(),
        forall|j: int| 0 <= j < i ==> (#[trigger] captures[j]).index != index,
    ensures
        match first_capture(captures, index, i) {
            Some(capture) => leads(captures, index, found) && captures[found] == capture,
            None => !names(captures, index),
        },
    decreases captures.len() - i,
{
    if i < captures.len() && captures[i].index != index {
        lemma_first_capture_leads(captures, index, i + 1)
    } else {
        i
    }
}

/// No match has two leading captures of one number.
proof fn lemma_leads_once(captures: Seq<Capture>, index: u32, i: int, j: int)
    requires
        leads(captures, index, i),
        leads(captures, index, j),
    ensures
        i == j,
{
}

/// A match has a pair if it has both brackets, and the pair is made of the first
/// ones.
proof fn lemma_pair(captures: Seq<Capture>, open: u32, close: u32)
    ensures
        match bracket_pair(captures, open, close) {
            Some(pair) => is_pair_of(pair, captures, open, close) && forall|i: int, j: int| #[trigger]
                leads(captures, open, i) && #[trigger] leads(captures, close, j) ==> pair_len(pair)
                    == captures[j].end_byte - captures[i].start_byte,
            None => !(names(captures, open) && names(captures, close)),
        },
{
    let a = lemma_first_capture_leads(captures, open, 0);
    let b = lemma_first_capture_leads(captures, close, 0);
    if bracket_pair(captures, open, close) is Some {
        assert(leads(captures, open, a) && leads(captures, close, b));
        assert forall|i: int, j: int| #[trigger] leads(captures, open, i) && #[trigger] leads(
            captures,
            close,
            j,
        ) implies i == a && j == b by {
            lemma_leads_once(captures, open, i, a);
            lemma_leads_once(captures, close, j, b);
        }
    }
}

proof fn lemma_innermost(matches: Seq<Seq<Capture>>, open: u32, close: u32, n: int)
    requires
        0 <= n <= matches.len(),
    ensures
        is_innermost(innermost(matches, open, close, n), matches.take(n), open, close),
    decreases n,
{
    let now = matches.take(n);
    if n > 0 {
        lemma_innermost(matches, open, close, n - 1);
        lemma_pair(matches[n - 1], open, close);
        let past = matches.take(n - 1);
        let best = innermost(matches, open, close, n - 1);
        let found = innermost(matches, open, close, n);
        assert(forall|k: int| 0 <= k < n - 1 ==> #[trigger] now[k] == past[k]);
        assert(now[n - 1] == matches[n - 1]);
        match found {
            Some(pair) => {
                let m = if found == best && !(best is None) {
                    choose|m: int|
                        {
                            &&& 0 <= m < past.len()
                            &&& is_pair_of(pair, #[trigger] past[m], open, close)
                            &&& forall|k: int, i: int, j: int|
                                0 <= k < past.len() && #[trigger] leads(past[k], open, i)
                                    && #[trigger] leads(past[k], close, j) ==> {
                                    let len = past[k][j].end_byte - past[k][i].start_byte;
                                    &&& pair.1.1 - pair.0.0 <= len
                                    &&& k < m ==> pair.1.1 - pair.0.0 < len
                                }
                        }
                } else {
                    n - 1
                };
                assert(is_pair_of(pair, now[m], open, close));
                assert forall|k: int, i: int, j: int|
                    0 <= k < now.len() && #[trigger] leads(now[k], open, i) && #[trigger] leads(
                        now[k],
                        close,
                        j,
                    ) implies {
                    let len = now[k][j].end_byte - now[k][i].start_byte;
                    &&& pair.1.1 - pair.0.0 <= len
                    &&& k < m ==> pair.1.1 - pair.0.0 < len
                } by {
                    if k < n - 1 {
                        assert(leads(past[k], open, i) && leads(past[k], close, j));
                        if best is None {
                            assert(names(past[k], open) && names(past[k], close));
                        }
                    } else {
                        assert(leads(matches[n - 1], open, i) && leads(matches[n - 1], close, j));
                        assert(names(matches[n - 1], open) && names(matches[n - 1], close));
                    }
                }
            },
            None => {
                assert forall|k: int| 0 <= k < now.len() implies !(names(
                    #[trigger] now[k],
                    open,
                ) && names(now[k], close)) by {
                    if k < n - 1 {
                        assert(now[k] == past[k]);
                    }
                }
            },
        }
    }
}

/// The pair of brackets that is found among some matches is the innermost one.
pub proof fn law_innermost_pair(matches: Seq<Seq<Capture>>, open: u32, close: u32)
    ensures
        is_innermost(
            innermost(matches, open, close, matches.len() as int),
            matches,
            open,
            close,
        ),
{
    lemma_innermost(matches, open, close, matches.len() as int);
    assert(matches.take(matches.len() as int) =~= matches);
}

/// The brackets around a range are the innermost ones of the matches of the
/// language's query for brackets in the range and one byte around it.
pub proof fn law_brackets_around_are_innermost(s: State, start: int, end: int, tree: Tree)
    requires
        0 <= start <= end < usize::MAX,
        s.language is Some,
        current_tree(s) == Some(tree),
    ensures
        ({
            let query = (s.language->0).brackets_query;
            let found = brackets_around(s, start, end);
            match (capture_index(query, "open"@), capture_index(query, "close"@)) {
                (Some(open), Some(close)) => exists|from: usize, to: usize|
                    {
                        &&& start == 0 ==> from == 0
                        &&& start > 0 ==> from == start - 1
                        &&& to == end + 1
                        &&& is_innermost(
                            found,
                            #[trigger] matches_in_bytes(query, tree, s.text(), from, to),
                            open,
                            close,
                        )
                    },
                _ => found is None,
            }
        }),
{
    let query = (s.language->0).brackets_query;
    match (capture_index(query, "open"@), capture_index(query, "close"@)) {
        (Some(open), Some(close)) => {
            let from = (if start > 0 {
                start - 1
            } else {
                0
            }) as usize;
            let to = (end + 1) as usize;
            law_innermost_pair(matches_in_bytes(query, tree, s.text(), from, to), open, close);
        },
        _ => {},
    }
}

/// Without a language or a tree there are no brackets.
pub proof fn law_no_brackets_without_a_tree(s: State, start: int, end: int)
    requires
        s.language is None || s.tree is None,
    ensures
        brackets_around(s, start, end) is None,
{
}

/// Of some ranges the first one is found that differs from a given one, in its
/// start or in its end: all before it are just the given one, and nothing is found
/// only if all are.
pub open spec fn is_first_other(
    found: Option<(usize, usize)>,
    ranges: Seq<(usize, usize)>,
    start: usize,
    end: usize,
) -> bool {
    match found {
        Some(range) => exists|k: int|
            {
                &&& 0 <= k < ranges.len()
                &&& #[trigger] ranges[k] == range
                &&& range.0 != start || range.1 != end
                &&& forall|j: int|
                    0 <= j < k ==> (#[trigger] ranges[j]).0 == start && ranges[j].1 == end
            },
        None => forall|j: int|
            0 <= j < ranges.len() ==> (#[trigger] ranges[j]).0 == start && ranges[j].1 == end,
    }
}

proof fn lemma_first_other(ranges: Seq<(usize, usize)>, start: usize, end: usize, i: int)
    requires
        0 <= i <= ranges.len(),
        forall|j: int| 0 <= j < i ==> (#[trigger] ranges[j]).0 == start && ranges[j].1 == end,
    ensures
        is_first_other(first_other(ranges, (start, end), i), ranges, start, end),
    decreases ranges.len() - i,
{
    if i < ranges.len() {
        if ranges[i].0 == start && ranges[i].1 == end {
            lemma_first_other(ranges, start, end, i + 1);
        } else {
            assert(ranges[i] == ranges[i]);
        }
    }
}

/// No node around a range is passed over that is larger than it: the one found is
/// the first of the nodes around the range that is not the range itself.
pub proof fn law_no_larger_node_is_passed_over(
    ranges: Seq<(usize, usize)>,
    start: usize,
    end: usize,
)
    ensures
        is_first_other(first_other(ranges, (start, end), 0), ranges, start, end),
{
    lemma_first_other(ranges, start, end, 0);
}

/// Going on from what was found, a selection grows: where each node lies within
/// the next, what is found holds the range and is larger than it.
pub proof fn law_selection_grows(tree: Tree, start: usize, end: usize)
    requires
        start <= end,
        forall|i: int|
            0 <= i < enclosing_nodes(tree, start, end).len() ==> (#[trigger] enclosing_nodes(
                tree,
                start,
                end,
            )[i]).0 <= start && end <= enclosing_nodes(tree, start, end)[i].1,
    ensures
        first_other(enclosing_nodes(tree, start, end), (start, end), 0) matches Some(range)
            ==> range.0 <= start && end <= range.1 && range.1 - range.0 > end - start,
{
    let ranges = enclosing_nodes(tree, start, end);
    law_no_larger_node_is_passed_over(ranges, start, end);
}

} // verus!
