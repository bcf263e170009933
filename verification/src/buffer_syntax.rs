//! A buffer and its syntax tree.

use std::ops::Range;
use std::sync::Arc;

use tree_sitter::Tree;
use vstd::prelude::*;
use vstd::utf8::*;

use crate::buffer::Buffer;
use crate::buffer_edit::{good_range, good_ranges, joined_ranges, lemma_coalesced, offsets_of};
use crate::clock::{Global, Version, exceeds};
use crate::content::{SPACE, ToOffset, ToPoint, indent_of, row_start_of, spaces_at};
use crate::context::{Effect, EffectModel, Event, ModelContext};
use crate::indent::{AutoindentRequest, AutoindentTask, RowMap};
use crate::point::Point;
use crate::rope::{
    NEWLINE, lemma_boundary_after_ascii, lemma_lines_bounds, lemma_row_boundaries, newlines,
    point_at, string_of,
};
use crate::snapshot::share;
use crate::state::{
    State, current_tree, edit_applied, edit_effects, ended, ended_effects, interpolated,
    reparse_effects, reparsing, snapshot_of, started,
};
use crate::syntax::{
    Capture, SyntaxTree, capture_index, capture_index_for_name, enclosing_nodes, match_models,
    matches_in_bytes, nodes_around, query_bytes,
};
use crate::syntax_laws::{
    is_first_other, is_innermost, law_innermost_pair, law_no_larger_node_is_passed_over,
};

verus! {

/// The lines of a buffer can be indented: there is a language, there is a tree,
/// and someone has asked for it.
pub open spec fn wants_indent(s: State) -> bool {
    s.language is Some && s.tree is Some && s.requests.len() > 0
}

/// What is asked for to get lines indented.
pub open spec fn indent_effects(s: State) -> Seq<EffectModel> {
    if wants_indent(s) {
        seq![EffectModel::Autoindent { snapshot: snapshot_of(s), requests: s.requests }]
    } else {
        Seq::empty()
    }
}

/// The buffer once lines are to be indented.
pub open spec fn indenting(s: State) -> State {
    State { pending_autoindent: s.pending_autoindent || wants_indent(s), ..interpolated(s) }
}

/// The buffer once it has a new tree.
pub open spec fn with_tree(s: State, tree: Tree, version: Version) -> State {
    State { parse_count: s.parse_count + 1, tree: Some((tree, version)), ..s }
}

/// The buffer once a parse has come to an end.
pub open spec fn parsed_state(s: State, tree: Tree, version: Version) -> State {
    indenting(with_tree(s, tree, version))
}

/// What is asked for, and reported, when a parse has come to an end.
pub open spec fn parsed_effects(s: State, tree: Tree, version: Version) -> Seq<EffectModel> {
    indent_effects(with_tree(s, tree, version)) + seq![
        EffectModel::Emit(Event::Reparsed),
        EffectModel::Notify,
    ]
}

/// The text has changed since it was parsed, or the language has.
pub open spec fn parse_again(s: State, version: Version, language_changed: bool) -> bool {
    exceeds(s.version, version) || language_changed
}

/// The bytes of some spaces, on a new line or not.
pub open spec fn indent_bytes(on_new_line: bool, n: int) -> Seq<u8> {
    (if on_new_line {
        seq![NEWLINE]
    } else {
        Seq::empty()
    }) + Seq::new(n as nat, |i: int| SPACE)
}

/// The edit that indents a row to a column: the range, and the text in its
/// place.
pub open spec fn indent_edit(text: Seq<u8>, row: u32, column: u32) -> (Seq<(int, int)>, Seq<char>) {
    let start = row_start_of(text, row as int);
    let current = indent_of(text, row as int);
    if column > current {
        if start > 0 {
            (seq![(start - 1, start)], decode_utf8(indent_bytes(true, column - current)))
        } else {
            (seq![(0int, 0int)], decode_utf8(indent_bytes(false, column - current)))
        }
    } else if column < current {
        (seq![(start, start + (current - column))], Seq::empty())
    } else {
        (Seq::empty(), Seq::empty())
    }
}

/// The buffer once a row has been indented.
pub open spec fn row_indented(s: State, row: u32, column: u32, now: u64) -> State {
    let edit = indent_edit(s.text(), row, column);
    edit_applied(s, joined_ranges(edit.0, edit.1), edit.1, now, s.requests)
}

/// What is reported, asked for and sent when a row is indented.
pub open spec fn row_effects(s: State, row: u32, column: u32, now: u64) -> Seq<EffectModel> {
    let edit = indent_edit(s.text(), row, column);
    edit_effects(s, joined_ranges(edit.0, edit.1), edit.1, now, s.requests)
}

/// There is such a row, and there is room to indent it.
pub open spec fn can_indent(s: State, row: u32, column: u32) -> bool {
    &&& row <= newlines(s.text(), s.text().len() as int)
    &&& s.can_tick()
    &&& s.history.depth < usize::MAX
    &&& s.cells.len() + column + 1 < usize::MAX
}

/// The buffer once the first `n` rows have been indented, where that can be
/// done.
pub open spec fn rows_indented(s: State, columns: Seq<(u32, u32)>, now: u64, n: int) -> State
    decreases n,
{
    if n <= 0 {
        s
    } else {
        let before = rows_indented(s, columns, now, n - 1);
        if can_indent(before, columns[n - 1].0, columns[n - 1].1) {
            row_indented(before, columns[n - 1].0, columns[n - 1].1, now)
        } else {
            before
        }
    }
}

/// What is reported, asked for and sent when the first `n` rows are indented.
pub open spec fn rows_effects(s: State, columns: Seq<(u32, u32)>, now: u64, n: int) -> Seq<
    EffectModel,
>
    decreases n,
{
    if n <= 0 {
        Seq::empty()
    } else {
        let before = rows_indented(s, columns, now, n - 1);
        rows_effects(s, columns, now, n - 1) + if can_indent(
            before,
            columns[n - 1].0,
            columns[n - 1].1,
        ) {
            row_effects(before, columns[n - 1].0, columns[n - 1].1, now)
        } else {
            Seq::empty()
        }
    }
}

/// The buffer before its rows are indented: nothing is asked for any more, and
/// a transaction has been started.
pub open spec fn indent_started(s: State, now: u64) -> State {
    started(State { pending_autoindent: false, requests: Seq::empty(), ..s }, None, now)
}

/// The buffer once rows have been indented, in one transaction.
pub open spec fn autoindented(s: State, columns: Seq<(u32, u32)>, now: u64) -> State {
    ended(
        rows_indented(indent_started(s, now), columns, now, columns.len() as int),
        None,
        now,
    )
}

/// What is reported, asked for and sent when rows are indented.
pub open spec fn autoindent_effects(s: State, columns: Seq<(u32, u32)>, now: u64) -> Seq<
    EffectModel,
> {
    let n = columns.len() as int;
    rows_effects(indent_started(s, now), columns, now, n) + ended_effects(
        rows_indented(indent_started(s, now), columns, now, n),
        None,
        now,
    )
}

/// Characters of one byte are text.
proof fn lemma_ascii_is_text(b: Seq<u8>)
    requires
        forall|i: int| 0 <= i < b.len() ==> #[trigger] b[i] < 128,
    ensures
        valid_utf8(b),
    decreases b.len(),
{
    if b.len() > 0 {
        let x = b[0];
        assert(x < 128 ==> is_leading_byte_width_1(x)) by (bit_vector);
        let rest = pop_first_scalar(b);
        assert(codepoint_width_1(x) < 128) by {
            assert(x < 128 ==> (x & 0x7F) < 128) by (bit_vector);
        }
        assert forall|i: int| 0 <= i < rest.len() implies #[trigger] rest[i] < 128 by {
            assert(rest[i] == b[i + 1]);
        }
        lemma_ascii_is_text(rest);
    }
}

proof fn lemma_spaces(b: Seq<u8>, i: int)
    requires
        0 <= i <= b.len(),
    ensures
        0 <= spaces_at(b, i),
        i + spaces_at(b, i) <= b.len(),
        forall|j: int| i <= j < i + spaces_at(b, i) ==> b[j] == SPACE,
    decreases b.len() - i,
{
    if i < b.len() && b[i] == SPACE {
        lemma_spaces(b, i + 1);
    }
}

/// The range of an edit that indents a row lies between characters.
pub proof fn lemma_indent_edit(text: Seq<u8>, row: u32, column: u32)
    requires
        valid_utf8(text),
        text.len() < usize::MAX,
        row <= newlines(text, text.len() as int),
    ensures
        ({
            let edit = indent_edit(text, row, column);
            &&& good_ranges(text, edit.0)
            &&& edit.0.len() <= 1
            &&& encode_utf8(edit.1).len() <= column + 1
            &&& joined_ranges(edit.0, edit.1).len() <= 1
            &&& 0 <= row_start_of(text, row as int) <= text.len()
            &&& 0 <= indent_of(text, row as int)
            &&& row_start_of(text, row as int) + indent_of(text, row as int) <= text.len()
            &&& column > indent_of(text, row as int) ==> valid_utf8(
                indent_bytes(
                    row_start_of(text, row as int) > 0,
                    column - indent_of(text, row as int),
                ),
            )
        }),
{
    is_char_boundary_start_end_of_seq(text);
    lemma_row_boundaries(text, row as int, 0);
    let start = row_start_of(text, row as int);
    let current = indent_of(text, row as int);
    lemma_spaces(text, start);
    let edit = indent_edit(text, row, column);
    if column > current {
        let bytes = indent_bytes(start > 0, column - current);
        assert forall|i: int| 0 <= i < bytes.len() implies #[trigger] bytes[i] < 128 by {}
        lemma_ascii_is_text(bytes);
        decode_utf8_encode_utf8(bytes);
        if start > 0 {
            lemma_row_feed(text, row as int, 0);
            let x = text[start - 1];
            assert(x == 10 ==> !is_continuation_byte(x)) by (bit_vector);
            is_char_boundary_iff_not_is_continuation_byte(text, start - 1);
            assert(good_range(text, edit.0[0]));
        } else {
            assert(good_range(text, edit.0[0]));
        }
    } else if column < current {
        let end = start + (current - column);
        assert(text[end - 1] == SPACE);
        lemma_boundary_after_ascii(text, end - 1);
        assert(good_range(text, edit.0[0]));
        assert(encode_utf8(Seq::<char>::empty()) =~= Seq::<u8>::empty());
    } else {
        assert(encode_utf8(Seq::<char>::empty()) =~= Seq::<u8>::empty());
    }
    lemma_joined_len(edit.0, edit.1);
}

proof fn lemma_joined_len(ranges: Seq<(int, int)>, text: Seq<char>)
    requires
        ranges.len() <= 1,
    ensures
        joined_ranges(ranges, text).len() <= ranges.len(),
{
    if ranges.len() == 1 {
        assert(crate::state::coalesced(ranges, encode_utf8(text).len() > 0, 0).len() == 0);
    }
}

/// A row but the first starts after a line feed.
pub proof fn lemma_row_feed(b: Seq<u8>, row: int, i: int)
    requires
        0 <= i <= b.len(),
        newlines(b, i) < row || (newlines(b, i) == row && (i == 0 || b[i - 1] == NEWLINE)),
        row <= newlines(b, b.len() as int),
    ensures
        ({
            let s = crate::rope::row_start_from(b, row, i);
            &&& i <= s <= b.len()
            &&& s > 0 ==> b[s - 1] == NEWLINE
        }),
    decreases b.len() - i,
{
    if i < b.len() && newlines(b, i) < row {
        lemma_row_feed(b, row, i + 1);
    }
}

/// The first capture of a match with the given number.
pub open spec fn first_capture(captures: Seq<Capture>, index: u32, i: int) -> Option<Capture>
    decreases captures.len() - i,
{
    if 0 <= i < captures.len() {
        if captures[i].index == index {
            Some(captures[i])
        } else {
            first_capture(captures, index, i + 1)
        }
    } else {
        None
    }
}

/// The brackets of a match: where the opening one and the closing one lie.
pub open spec fn bracket_pair(captures: Seq<Capture>, open: u32, close: u32) -> Option<
    ((usize, usize), (usize, usize)),
> {
    match (first_capture(captures, open, 0), first_capture(captures, close, 0)) {
        (Some(a), Some(b)) => Some(
            ((a.start_byte, a.end_byte), (b.start_byte, b.end_byte)),
        ),
        _ => None,
    }
}

/// How far a pair of brackets reaches.
pub open spec fn pair_len(pair: ((usize, usize), (usize, usize))) -> int {
    pair.1.1 - pair.0.0
}

/// The shortest of the pairs of brackets of the first `n` matches; the first of
/// those that are equally short.
pub open spec fn innermost(matches: Seq<Seq<Capture>>, open: u32, close: u32, n: int) -> Option<
    ((usize, usize), (usize, usize)),
>
    decreases n,
{
    if n <= 0 {
        None
    } else {
        let best = innermost(matches, open, close, n - 1);
        match bracket_pair(matches[n - 1], open, close) {
            Some(pair) => match best {
                Some(other) => if pair_len(pair) < pair_len(other) {
                    Some(pair)
                } else {
                    best
                },
                None => Some(pair),
            },
            None => best,
        }
    }
}

fn find_capture(captures: &Vec<Capture>, index: u32) -> (found: Option<Capture>)
    ensures
        found == first_capture(captures@, index, 0),
{
    let mut i: usize = 0;
    while i < captures.len()
        invariant
            i <= captures@.len(),
            first_capture(captures@, index, i as int) == first_capture(captures@, index, 0),
        decreases captures@.len() - i,
    {
        if captures[i].index == index {
            return Some(captures[i]);
        }
        i = i + 1;
    }
    None
}

/// The shortest of the pairs of brackets of some matches.
pub fn innermost_pair(matches: &Vec<Vec<Capture>>, open: u32, close: u32) -> (pair: Option<
    ((usize, usize), (usize, usize)),
>)
    ensures
        pair == innermost(match_models(matches@), open, close, matches@.len() as int),
        is_innermost(pair, match_models(matches@), open, close),
{
    let ghost models = match_models(matches@);
    let mut best: Option<((usize, usize), (usize, usize))> = None;
    let mut i: usize = 0;
    while i < matches.len()
        invariant
            i <= matches@.len(),
            models == match_models(matches@),
            best == innermost(models, open, close, i as int),
        decreases matches@.len() - i,
    {
        assert(models[i as int] == matches@[i as int]@);
        let opening = find_capture(&matches[i], open);
        let closing = find_capture(&matches[i], close);
        match (opening, closing) {
            (Some(a), Some(b)) => {
                let shorter = match best {
                    Some(other) => {
                        let here: u128 = b.end_byte as u128 + (other.0).0 as u128;
                        let there: u128 = (other.1).1 as u128 + a.start_byte as u128;
                        here < there
                    },
                    None => true,
                };
                if shorter {
                    best = Some(((a.start_byte, a.end_byte), (b.start_byte, b.end_byte)));
                }
            },
            _ => {},
        }
        i = i + 1;
    }
    proof {
        law_innermost_pair(models, open, close);
    }
    best
}

/// The first range from `i` on that is not the given one.
pub open spec fn first_other(ranges: Seq<(usize, usize)>, range: (usize, usize), i: int) -> Option<
    (usize, usize),
>
    decreases ranges.len() - i,
{
    if 0 <= i < ranges.len() {
        if ranges[i] != range {
            Some(ranges[i])
        } else {
            first_other(ranges, range, i + 1)
        }
    } else {
        None
    }
}

/// The first range that is not the given one.
pub fn smallest_other(ranges: &Vec<(usize, usize)>, start: usize, end: usize) -> (found: Option<
    Range<usize>,
>)
    ensures
        maybe_pair(found) == first_other(ranges@, (start, end), 0),
        match found {
            Some(range) => is_first_other(Some((range.start, range.end)), ranges@, start, end),
            None => is_first_other(None, ranges@, start, end),
        },
{
    proof {
        law_no_larger_node_is_passed_over(ranges@, start, end);
    }
    let mut i: usize = 0;
    while i < ranges.len()
        invariant
            i <= ranges@.len(),
            first_other(ranges@, (start, end), i as int) == first_other(ranges@, (start, end), 0),
            is_first_other(
                first_other(ranges@, (start, end), 0),
                ranges@,
                start,
                end,
            ),
        decreases ranges@.len() - i,
    {
        let (a, b) = ranges[i];
        if a != start || b != end {
            return Some(a..b);
        }
        i = i + 1;
    }
    None
}

pub open spec fn maybe_pair(range: Option<Range<usize>>) -> Option<(usize, usize)> {
    match range {
        Some(range) => Some((range.start, range.end)),
        None => None,
    }
}

/// The brackets around a range, going by the syntax tree.
pub open spec fn brackets_around(s: State, start: int, end: int) -> Option<
    ((usize, usize), (usize, usize)),
> {
    match (s.language, current_tree(s)) {
        (Some(language), Some(tree)) => {
            let query = language.brackets_query;
            match (capture_index(query, "open"@), capture_index(query, "close"@)) {
                (Some(open), Some(close)) => {
                    let from = (if start > 0 {
                        start - 1
                    } else {
                        0
                    }) as usize;
                    let matches = matches_in_bytes(
                        query,
                        tree,
                        s.text(),
                        from,
                        (end + 1) as usize,
                    );
                    innermost(matches, open, close, matches.len() as int)
                },
                _ => None,
            }
        },
        _ => None,
    }
}

/// A pair of ranges as numbers.
pub open spec fn maybe_pairs(pair: Option<(Range<usize>, Range<usize>)>) -> Option<
    ((usize, usize), (usize, usize)),
> {
    match pair {
        Some(pair) => Some(((pair.0.start, pair.0.end), (pair.1.start, pair.1.end))),
        None => None,
    }
}

impl Buffer {
    /// A parse has come to an end. If the text or the language has changed
    /// meanwhile, another one is asked for.
    pub fn finish_parsing(
        &mut self,
        tree: Tree,
        parsed_version: Global,
        language_changed: bool,
        cx: &mut ModelContext,
    )
        requires
            old(self).wf(),
            old(self)@.parse_count < usize::MAX,
        ensures
            final(self).wf(),
            final(cx).same_place(old(cx)),
            ({
                let idle = State { parsing: false, ..old(self)@ };
                let done = parsed_state(idle, tree, parsed_version@);
                let effects = parsed_effects(idle, tree, parsed_version@);
                if parse_again(old(self)@, parsed_version@, language_changed) {
                    &&& final(self)@ == reparsing(done)
                    &&& final(cx)@ == old(cx)@ + (effects + reparse_effects(done))
                } else {
                    &&& final(self)@ == done
                    &&& final(cx)@ == old(cx)@ + effects
                }
            }),
    {
        let again = self.version.greater_than(&parsed_version) || language_changed;
        self.parsing_in_background = false;
        assert(self.doc() == old(self).doc());
        let ghost idle = self@;
        let ghost v = parsed_version@;
        self.did_finish_parsing(tree, parsed_version, cx);
        let ghost done = self@;
        if again {
            self.reparse(cx);
            proof {
                let a = parsed_effects(idle, tree, v);
                let b = reparse_effects(done);
                assert(old(cx)@ + a + b =~= old(cx)@ + (a + b));
            }
        }
    }

    /// Takes a new tree, and has lines indented if someone has asked for it.
    pub fn did_finish_parsing(&mut self, tree: Tree, version: Global, cx: &mut ModelContext)
        requires
            old(self).wf(),
            old(self)@.parse_count < usize::MAX,
        ensures
            final(self).wf(),
            final(cx).same_place(old(cx)),
            final(self)@ == parsed_state(old(self)@, tree, version@),
            final(cx)@ == old(cx)@ + parsed_effects(old(self)@, tree, version@),
    {
        let ghost s = self@;
        let ghost v = version@;
        self.parse_count = self.parse_count + 1;
        self.syntax_tree = Some(SyntaxTree { tree, version });
        assert(self.doc() == old(self).doc());
        assert(self@ =~= with_tree(s, tree, v));
        self.request_autoindent(cx);
        cx.emit(Event::Reparsed);
        cx.notify();
        assert(cx@ =~= old(cx)@ + parsed_effects(s, tree, v));
    }

    /// Asks for lines to be indented, if someone has asked for it.
    pub fn request_autoindent(&mut self, cx: &mut ModelContext)
        requires
            old(self).wf(),
        ensures
            final(self).wf(),
            final(cx).same_place(old(cx)),
            final(self)@ == indenting(old(self)@),
            final(cx)@ == old(cx)@ + indent_effects(old(self)@),
    {
        let task = self.compute_autoindents();
        let ghost doc = self.doc();
        match task {
            Some(task) => {
                self.pending_autoindent = true;
                assert(self.doc() == doc);
                cx.push(Effect::Autoindent(task));
            },
            None => {},
        }
        assert(cx@ =~= old(cx)@ + indent_effects(old(self)@));
    }

    /// The lines to be indented, if there is a language and a tree and someone
    /// has asked for it. The syntax tree is brought up to date.
    pub fn compute_autoindents(&mut self) -> (task: Option<AutoindentTask>)
        requires
            old(self).wf(),
        ensures
            final(self).wf(),
            final(self)@ == interpolated(old(self)@),
            match task {
                Some(task) => {
                    &&& wants_indent(old(self)@)
                    &&& task.wf()
                    &&& task.snapshot@ == snapshot_of(old(self)@)
                    &&& task.requests@ == old(self)@.requests
                },
                None => !wants_indent(old(self)@),
            },
    {
        let snapshot = self.snapshot();
        if snapshot.language.is_none() || snapshot.tree.is_none() || self.autoindent_requests.len()
            == 0 {
            return None;
        }
        let mut requests: Vec<Arc<AutoindentRequest>> = Vec::new();
        let mut i: usize = 0;
        while i < self.autoindent_requests.len()
            invariant
                i <= self.autoindent_requests@.len(),
                requests@ =~= self.autoindent_requests@.take(i as int),
            decreases self.autoindent_requests@.len() - i,
        {
            requests.push(share(&self.autoindent_requests[i]));
            i = i + 1;
        }
        assert(self.autoindent_requests@.take(i as int) =~= self.autoindent_requests@);
        Some(AutoindentTask { snapshot, requests })
    }

    /// Lines have been found to be indented: if that is still wanted, they are,
    /// in one transaction.
    #[verifier::rlimit(50)]
    pub fn finish_autoindent(&mut self, columns: &RowMap, cx: &mut ModelContext)
        requires
            old(self).wf(),
            old(self)@.history.depth < usize::MAX,
        ensures
            final(self).wf(),
            final(cx).same_place(old(cx)),
            old(self)@.pending_autoindent ==> {
                &&& final(self)@ == autoindented(old(self)@, columns.entries@, old(cx).now)
                &&& final(cx)@ == old(cx)@ + autoindent_effects(
                    old(self)@,
                    columns.entries@,
                    old(cx).now,
                )
            },
            !old(self)@.pending_autoindent ==> final(self)@ == old(self)@ && final(cx)@ == old(
                cx,
            )@,
    {
        if !self.pending_autoindent {
            return;
        }
        let ghost s = self@;
        let ghost now = cx.now;
        let ghost start = cx@;
        self.pending_autoindent = false;
        self.autoindent_requests = Vec::new();
        proof {
            assert(self.doc() == old(self).doc());
            assert(self.autoindent_requests@ =~= Seq::empty());
        }
        let _ = self.start_transaction(None, cx);
        let ghost begun = indent_started(s, now);
        let ghost entries = columns.entries@;
        proof {
            assert(self@ =~= begun);
            assert(start + Seq::<EffectModel>::empty() =~= start);
        }
        let mut i: usize = 0;
        while i < columns.entries.len()
            invariant
                i <= entries.len(),
                entries == columns.entries@,
                self.wf(),
                cx.same_place(old(cx)),
                now == cx.now,
                self@ == rows_indented(begun, entries, now, i as int),
                cx@ == start + rows_effects(begun, entries, now, i as int),
                self@.history.depth > 0,
            decreases entries.len() - i,
        {
            let (row, column) = columns.entries[i];
            let ghost before = self@;
            if self.can_indent(row, column) {
                proof {
                    lemma_depth(before, indent_edit(before.text(), row, column), now);
                }
                self.set_indent_column_for_line(row, column, cx);
            }
            proof {
                let sofar = rows_effects(begun, entries, now, i as int);
                let more = row_effects(before, row, column, now);
                assert(start + sofar + more =~= start + (sofar + more));
                assert(sofar + Seq::<EffectModel>::empty() =~= sofar);
            }
            i = i + 1;
        }
        let ghost done = self@;
        let _ = self.end_transaction(None, cx);
        proof {
            let a = rows_effects(begun, entries, now, entries.len() as int);
            let b = ended_effects(done, None, now);
            assert(start + a + b =~= start + (a + b));
        }
    }

    /// Whether there is such a row, and room to indent it.
    fn can_indent(&self, row: u32, column: u32) -> (b: bool)
        requires
            self.wf(),
        ensures
            b == can_indent(self@, row, column),
    {
        proof {
            self.lemma_text();
            lemma_lines_bounds(self@.text(), self@.text().len() as int);
            crate::document::lemma_cells_len(self.doc(), self.doc().n());
        }
        let size = self.visible_text.len() + self.deleted_text.len();
        row <= self.max_point().row && self.local_clock.value < u32::MAX && self.lamport_clock.value
            < u32::MAX && self.history.transaction_depth < usize::MAX && (column as usize)
            < usize::MAX - 1 - size
    }

    /// Indents a row to a column.
    pub fn set_indent_column_for_line(&mut self, row: u32, column: u32, cx: &mut ModelContext)
        requires
            old(self).wf(),
            can_indent(old(self)@, row, column),
        ensures
            final(self).wf(),
            final(cx).same_place(old(cx)),
            final(self)@ == row_indented(old(self)@, row, column, old(cx).now),
            final(cx)@ == old(cx)@ + row_effects(old(self)@, row, column, old(cx).now),
    {
        let current_column = self.indent_column_for_line(row);
        let ghost s = self@;
        let ghost edit = indent_edit(s.text(), row, column);
        proof {
            self.lemma_text();
            lemma_indent_edit(s.text(), row, column);
            let joined = joined_ranges(edit.0, edit.1);
            let len = encode_utf8(edit.1).len();
            lemma_coalesced(s.text(), edit.0, len > 0, edit.0.len() as int);
            assert(joined.len() * len <= len) by (nonlinear_arith)
                requires
                    joined.len() <= 1,
            ;
        }
        let offset = self.visible_text.row_start(row);
        let mut ranges: Vec<Range<usize>> = Vec::new();
        if column > current_column {
            let mut bytes: Vec<u8> = Vec::new();
            if offset > 0 {
                bytes.push(NEWLINE);
                ranges.push(offset - 1..offset);
            } else {
                ranges.push(offset..offset);
            }
            let delta: u32 = column - current_column;
            let ghost head = bytes@;
            let mut i: u32 = 0;
            while i < delta
                invariant
                    i <= delta,
                    bytes@ =~= head + Seq::new(i as nat, |k: int| SPACE),
                    bytes@.len() <= 1 + i,
                decreases delta - i,
            {
                bytes.push(SPACE);
                i = i + 1;
            }
            proof {
                assert(bytes@ =~= indent_bytes(offset > 0, delta as int));
                assert(bytes@.subrange(0, bytes@.len() as int) =~= bytes@);
            }
            let text = string_of(bytes.as_slice(), 0, bytes.len());
            proof {
                encode_utf8_decode_utf8(text@);
                assert(offsets_of(ranges@, s.cells) =~= edit.0);
            }
            self.edit(&ranges, text.as_str(), cx);
        } else if column < current_column {
            let end = offset + (current_column - column) as usize;
            ranges.push(offset..end);
            proof {
                reveal_strlit("");
                assert(""@ =~= Seq::<char>::empty());
                assert(offsets_of(ranges@, s.cells) =~= edit.0);
            }
            self.edit(&ranges, "", cx);
        } else {
            proof {
                assert(joined_ranges(edit.0, edit.1).len() == 0);
                assert(old(cx)@ + Seq::<EffectModel>::empty() =~= old(cx)@);
            }
        }
    }

    /// The byte range of the smallest node around a range that is larger than
    /// it.
    pub fn range_for_syntax_ancestor<T: ToOffset>(&mut self, range: Range<T>) -> (found: Option<
        Range<usize>,
    >)
        requires
            old(self).wf(),
            range.start.names_place(old(self)@.cells),
            range.end.names_place(old(self)@.cells),
        ensures
            final(self).wf(),
            final(self)@ == interpolated(old(self)@),
            maybe_pair(found) == match current_tree(old(self)@) {
                Some(tree) => {
                    let start = range.start.offset_in(old(self)@.cells) as usize;
                    let end = range.end.offset_in(old(self)@.cells) as usize;
                    first_other(enclosing_nodes(tree, start, end), (start, end), 0)
                },
                None => None,
            },
    {
        match self.syntax_tree() {
            Some(tree) => {
                let content = self.content();
                let start = range.start.to_offset(&content);
                let end = range.end.to_offset(&content);
                let nodes = nodes_around(&tree, start, end);
                smallest_other(&nodes, start, end)
            },
            None => None,
        }
    }

    /// The innermost pair of brackets around a range.
    pub fn enclosing_bracket_ranges<T: ToOffset>(&mut self, range: Range<T>) -> (pair: Option<
        (Range<usize>, Range<usize>),
    >)
        requires
            old(self).wf(),
            range.start.names_place(old(self)@.cells),
            range.end.names_place(old(self)@.cells),
            range.end.offset_in(old(self)@.cells) < usize::MAX,
        ensures
            final(self).wf(),
            final(self)@ == interpolated(old(self)@),
            maybe_pairs(pair) == brackets_around(
                old(self)@,
                range.start.offset_in(old(self)@.cells),
                range.end.offset_in(old(self)@.cells),
            ),
    {
        let tree = self.syntax_tree();
        proof {
            self.lemma_text();
        }
        match (&self.language, tree) {
            (Some(language), Some(tree)) => {
                let query = &language.brackets_query;
                let open = capture_index_for_name(query, "open");
                let close = capture_index_for_name(query, "close");
                match (open, close) {
                    (Some(open), Some(close)) => {
                        let content = self.content();
                        let start = range.start.to_offset(&content);
                        let end = range.end.to_offset(&content);
                        let from: usize = if start > 0 {
                            start - 1
                        } else {
                            0
                        };
                        let matches = query_bytes(
                            query,
                            &tree,
                            self.visible_text.as_bytes(),
                            from,
                            end + 1,
                        );
                        match innermost_pair(&matches, open, close) {
                            Some((a, b)) => Some((a.0..a.1, b.0..b.1)),
                            None => None,
                        }
                    },
                    _ => None,
                }
            },
            _ => None,
        }
    }

    /// The innermost pair of brackets around a range, in rows and columns; none
    /// if it does not lie in the text.
    pub fn enclosing_bracket_point_ranges<T: ToOffset>(&mut self, range: Range<T>) -> (pair: Option<
        (Range<Point>, Range<Point>),
    >)
        requires
            old(self).wf(),
            range.start.names_place(old(self)@.cells),
            range.end.names_place(old(self)@.cells),
            range.end.offset_in(old(self)@.cells) < usize::MAX,
        ensures
            final(self).wf(),
            final(self)@ == interpolated(old(self)@),
            ({
                let found = brackets_around(
                    old(self)@,
                    range.start.offset_in(old(self)@.cells),
                    range.end.offset_in(old(self)@.cells),
                );
                let text = old(self)@.text();
                match pair {
                    Some(pair) => {
                        &&& found is Some
                        &&& pair_in_text(found->0, text)
                        &&& pair.0.start == point_at(text, ((found->0).0).0 as int)
                        &&& pair.0.end == point_at(text, ((found->0).0).1 as int)
                        &&& pair.1.start == point_at(text, ((found->0).1).0 as int)
                        &&& pair.1.end == point_at(text, ((found->0).1).1 as int)
                    },
                    None => found is None || !pair_in_text(found->0, text),
                }
            }),
    {
        match self.enclosing_bracket_ranges(range) {
            Some((open, close)) => {
                proof {
                    self.lemma_text();
                }
                let len = self.visible_text.len();
                if open.start > len || open.end > len || close.start > len || close.end > len {
                    return None;
                }
                let rope = &self.visible_text;
                Some(
                    (
                        rope.to_point(open.start)..rope.to_point(open.end),
                        rope.to_point(close.start)..rope.to_point(close.end),
                    ),
                )
            },
            None => None,
        }
    }
}

/// The pair lies in the text.
pub open spec fn pair_in_text(pair: ((usize, usize), (usize, usize)), text: Seq<u8>) -> bool {
    &&& (pair.0).0 <= text.len()
    &&& (pair.0).1 <= text.len()
    &&& (pair.1).0 <= text.len()
    &&& (pair.1).1 <= text.len()
}

/// An edit leaves a transaction as deep as it was.
proof fn lemma_depth(s: State, edit: (Seq<(int, int)>, Seq<char>), now: u64)
    requires
        s.history.depth > 0,
    ensures
        edit_applied(
            s,
            joined_ranges(edit.0, edit.1),
            edit.1,
            now,
            s.requests,
        ).history.depth == s.history.depth,
{
}

} // verus!
