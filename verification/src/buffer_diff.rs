//! Turning the text of a buffer into another text with as few edits as
//! possible.

use std::ops::Range;
use vstd::prelude::*;
use vstd::utf8::*;

use crate::buffer::Buffer;
use crate::buffer_edit::{
    edit_has_room, good_range, good_ranges, joined_ranges, lemma_coalesced, lemma_editable,
    offsets_of,
};
use crate::clock::{Global, same_version};
use crate::context::{EffectModel, Event, ModelContext};
use crate::edit_laws::{law_edit_replaces_text, replaced, replaced_upto};
use crate::local::lemma_local_plan;
use crate::operation::bytes_of;
use crate::state::{
    State, coalesced, edit_applied, edit_effects, ended, ended_effects, inserted_text,
    next_timestamp, started,
};
use crate::weave::{lemma_woven_len, local_plan};

verus! {

/// What a change does with a piece of text.
#[derive(Clone, Copy, Debug, PartialEq, Eq, Structural)]
pub enum ChangeTag {
    Equal,
    Delete,
    Insert,
}

/// The changes from `i` on turn the rest of `old` into the rest of `new`: each
/// keeps, drops or inserts the next piece, no piece is empty, and none cuts a
/// character.
pub open spec fn is_script_from(
    changes: Seq<(ChangeTag, usize)>,
    old: Seq<u8>,
    new: Seq<u8>,
    from: int,
    to: int,
    i: int,
) -> bool
    decreases changes.len() - i,
{
    if 0 <= i < changes.len() {
        let len = changes[i].1 as int;
        len > 0 && match changes[i].0 {
            ChangeTag::Equal => {
                &&& from + len <= old.len()
                &&& to + len <= new.len()
                &&& old.subrange(from, from + len) == new.subrange(to, to + len)
                &&& is_char_boundary(old, from + len)
                &&& is_char_boundary(new, to + len)
                &&& is_script_from(changes, old, new, from + len, to + len, i + 1)
            },
            ChangeTag::Delete => {
                &&& from + len <= old.len()
                &&& is_char_boundary(old, from + len)
                &&& is_script_from(changes, old, new, from + len, to, i + 1)
            },
            ChangeTag::Insert => {
                &&& to + len <= new.len()
                &&& is_char_boundary(new, to + len)
                &&& is_script_from(changes, old, new, from, to + len, i + 1)
            },
        }
    } else {
        from == old.len() && to == new.len()
    }
}

/// The changes turn `old` into `new`.
pub open spec fn is_script(changes: Seq<(ChangeTag, usize)>, old: Seq<u8>, new: Seq<u8>) -> bool {
    is_script_from(changes, old, new, 0, 0, 0)
}

/// The changes, line by line, that turn one text into another.
pub uninterp spec fn line_changes(old: Seq<char>, new: Seq<char>) -> Seq<(ChangeTag, usize)>;

/// Calls `similar::TextDiff::from_lines` and hands over the tag and the length
/// of each of its changes: they depend on the two texts alone, and turn the one
/// into the other.
#[verifier::external_body]
fn diff_lines(from: &str, to: &str) -> (changes: Vec<(ChangeTag, usize)>)
    ensures
        changes@ == line_changes(from@, to@),
        is_script(changes@, encode_utf8(from@), encode_utf8(to@)),
{
    let diff = similar::TextDiff::from_lines(from, to);
    let tag = |tag: similar::ChangeTag| match tag {
        similar::ChangeTag::Equal => ChangeTag::Equal,
        similar::ChangeTag::Delete => ChangeTag::Delete,
        similar::ChangeTag::Insert => ChangeTag::Insert,
    };
    diff.iter_all_changes().map(|c| (tag(c.tag()), c.value().len())).collect()
}

/// The changes that turn the text of a version into a new text.
pub struct Diff {
    pub base_version: Global,
    pub new_text: String,
    pub changes: Vec<(ChangeTag, usize)>,
}

/// How much of the new text the first `n` changes make up.
pub open spec fn made(changes: Seq<(ChangeTag, usize)>, n: int) -> int
    decreases n,
{
    if n <= 0 {
        0
    } else {
        made(changes, n - 1) + match changes[n - 1].0 {
            ChangeTag::Delete => 0,
            _ => changes[n - 1].1 as int,
        }
    }
}

/// How much of the old text the first `n` changes use up.
pub open spec fn used_up(changes: Seq<(ChangeTag, usize)>, n: int) -> int
    decreases n,
{
    if n <= 0 {
        0
    } else {
        used_up(changes, n - 1) + match changes[n - 1].0 {
            ChangeTag::Insert => 0,
            _ => changes[n - 1].1 as int,
        }
    }
}

/// The range that change `n` edits, and the text that it puts there.
pub open spec fn change_edit(
    changes: Seq<(ChangeTag, usize)>,
    new: Seq<u8>,
    n: int,
) -> (Seq<(int, int)>, Seq<char>) {
    let offset = made(changes, n);
    let len = changes[n].1 as int;
    match changes[n].0 {
        ChangeTag::Equal => (Seq::empty(), Seq::empty()),
        ChangeTag::Delete => (seq![(offset, offset + len)], Seq::empty()),
        ChangeTag::Insert => (
            seq![(offset, offset)],
            decode_utf8(new.subrange(offset, offset + len)),
        ),
    }
}

/// The buffer after the first `n` changes.
pub open spec fn changes_made(
    s: State,
    changes: Seq<(ChangeTag, usize)>,
    new: Seq<u8>,
    now: u64,
    n: int,
) -> State
    decreases n,
{
    if n <= 0 {
        s
    } else {
        let before = changes_made(s, changes, new, now, n - 1);
        let edit = change_edit(changes, new, n - 1);
        edit_applied(before, joined_ranges(edit.0, edit.1), edit.1, now, before.requests)
    }
}

/// What the first `n` changes report, ask for and send.
pub open spec fn changes_effects(
    s: State,
    changes: Seq<(ChangeTag, usize)>,
    new: Seq<u8>,
    now: u64,
    n: int,
) -> Seq<EffectModel>
    decreases n,
{
    if n <= 0 {
        Seq::empty()
    } else {
        let before = changes_made(s, changes, new, now, n - 1);
        let edit = change_edit(changes, new, n - 1);
        changes_effects(s, changes, new, now, n - 1) + edit_effects(
            before,
            joined_ranges(edit.0, edit.1),
            edit.1,
            now,
            before.requests,
        )
    }
}

/// The buffer after all the changes of a diff, made in one transaction.
pub open spec fn diff_applied(
    s: State,
    changes: Seq<(ChangeTag, usize)>,
    new: Seq<u8>,
    now: u64,
) -> State {
    ended(
        changes_made(started(s, None, now), changes, new, now, changes.len() as int),
        None,
        now,
    )
}

/// What the changes of a diff report, ask for and send.
pub open spec fn diff_effects(
    s: State,
    changes: Seq<(ChangeTag, usize)>,
    new: Seq<u8>,
    now: u64,
) -> Seq<EffectModel> {
    let begun = started(s, None, now);
    changes_effects(begun, changes, new, now, changes.len() as int) + ended_effects(
        changes_made(begun, changes, new, now, changes.len() as int),
        None,
        now,
    )
}

/// A script stays one after its first changes.
proof fn lemma_script(
    changes: Seq<(ChangeTag, usize)>,
    old: Seq<u8>,
    new: Seq<u8>,
    n: int,
)
    requires
        is_script(changes, old, new),
        valid_utf8(old),
        valid_utf8(new),
        0 <= n <= changes.len(),
    ensures
        is_script_from(changes, old, new, used_up(changes, n), made(changes, n), n),
        0 <= used_up(changes, n) <= old.len(),
        0 <= made(changes, n) <= new.len(),
        is_char_boundary(old, used_up(changes, n)),
        is_char_boundary(new, made(changes, n)),
        n <= used_up(changes, n) + made(changes, n),
    decreases n,
{
    if n > 0 {
        lemma_script(changes, old, new, n - 1);
    } else {
        is_char_boundary_start_end_of_seq(old);
        is_char_boundary_start_end_of_seq(new);
    }
}

/// The text halfway through a script: the new text so far, and the rest of the
/// old one.
pub open spec fn halfway(
    changes: Seq<(ChangeTag, usize)>,
    old: Seq<u8>,
    new: Seq<u8>,
    n: int,
) -> Seq<u8> {
    new.take(made(changes, n)) + old.skip(used_up(changes, n))
}

/// How a text changes when one range of it is replaced.
proof fn lemma_replaced_once(text: Seq<u8>, range: (int, int), new: Seq<u8>)
    requires
        0 <= range.0 <= range.1 <= text.len(),
    ensures
        replaced(text, seq![range], new) == text.take(range.0) + new + text.skip(range.1),
{
    let ranges = seq![range];
    assert(replaced_upto(text, ranges, new, 0, range.0) == text.subrange(0, range.0));
    assert(text.subrange(0, range.0) =~= text.take(range.0));
    assert(text.subrange(range.1, text.len() as int) =~= text.skip(range.1));
}

/// Places of the text halfway through a script lie between characters.
proof fn lemma_halfway(
    changes: Seq<(ChangeTag, usize)>,
    old: Seq<u8>,
    new: Seq<u8>,
    n: int,
)
    requires
        is_script(changes, old, new),
        valid_utf8(old),
        valid_utf8(new),
        new.len() <= usize::MAX,
        0 <= n < changes.len(),
    ensures
        ({
            let text = halfway(changes, old, new, n);
            let edit = change_edit(changes, new, n);
            let next = halfway(changes, old, new, n + 1);
            &&& good_ranges(text, edit.0)
            &&& changes[n].0 is Equal ==> next == text
            &&& changes[n].0 !is Equal ==> next == replaced(text, edit.0, encode_utf8(edit.1))
            &&& encode_utf8(edit.1).len() == made(changes, n + 1) - made(changes, n)
                || changes[n].0 is Equal
            &&& changes[n].0 is Equal ==> edit.0.len() == 0
        }),
{
    lemma_script(changes, old, new, n);
    lemma_script(changes, old, new, n + 1);
    let text = halfway(changes, old, new, n);
    let a = made(changes, n);
    let o = used_up(changes, n);
    let len = changes[n].1 as int;
    let edit = change_edit(changes, new, n);
    let head = new.take(a);
    let tail = old.skip(o);
    assert(head =~= new.subrange(0, a));
    assert(tail =~= old.subrange(o, old.len() as int));
    valid_utf8_split(new, a);
    valid_utf8_split(old, o);
    lemma_boundary_between(head, tail);
    match changes[n].0 {
        ChangeTag::Equal => {
            assert(halfway(changes, old, new, n + 1) =~= text) by {
                assert(old.subrange(o, o + len) == new.subrange(a, a + len));
                assert forall|i: int| 0 <= i < text.len() implies halfway(
                    changes,
                    old,
                    new,
                    n + 1,
                )[i] == text[i] by {
                    if a <= i < a + len {
                        assert(old.subrange(o, o + len)[i - a] == new.subrange(a, a + len)[i - a]);
                    }
                }
            }
        },
        ChangeTag::Delete => {
            lemma_boundary_inside(head, old, o, o + len);
            assert(edit.0[0] == (a, a + len));
            assert(good_range(text, edit.0[0]));
            lemma_replaced_once(text, (a, a + len), Seq::empty());
            assert(encode_utf8(Seq::<char>::empty()) =~= Seq::<u8>::empty());
            assert(text.take(a) + Seq::<u8>::empty() + text.skip(a + len) =~= halfway(
                changes,
                old,
                new,
                n + 1,
            ));
        },
        ChangeTag::Insert => {
            assert(edit.0[0] == (a, a));
            assert(good_range(text, edit.0[0]));
            let piece = new.subrange(a, a + len);
            crate::rope::lemma_slice_is_text(new, a, a + len);
            decode_utf8_encode_utf8(piece);
            lemma_replaced_once(text, (a, a), piece);
            assert(text.take(a) + piece + text.skip(a) =~= halfway(changes, old, new, n + 1));
        },
    }
}

/// Where two texts meet, a character starts.
proof fn lemma_boundary_between(a: Seq<u8>, b: Seq<u8>)
    requires
        valid_utf8(a),
        valid_utf8(b),
    ensures
        valid_utf8(a + b),
        is_char_boundary(a + b, a.len() as int),
{
    valid_utf8_concat(a, b);
    let t = a + b;
    if b.len() == 0 {
        assert(t =~= a);
        is_char_boundary_start_end_of_seq(t);
    } else {
        is_char_boundary_start_end_of_seq(b);
        is_char_boundary_iff_not_is_continuation_byte(b, 0);
        assert(t[a.len() as int] == b[0]);
        is_char_boundary_iff_not_is_continuation_byte(t, a.len() as int);
    }
}

/// A place between characters of the second of two texts is one of both
/// together.
proof fn lemma_boundary_inside(a: Seq<u8>, b: Seq<u8>, from: int, p: int)
    requires
        valid_utf8(a),
        valid_utf8(b),
        0 <= from <= p <= b.len(),
        is_char_boundary(b, from),
        is_char_boundary(b, p),
    ensures
        is_char_boundary(a + b.skip(from), a.len() + (p - from)),
{
    let tail = b.skip(from);
    assert(tail =~= b.subrange(from, b.len() as int));
    valid_utf8_split(b, from);
    lemma_boundary_between(a, tail);
    let t = a + tail;
    if p == b.len() {
        is_char_boundary_start_end_of_seq(t);
    } else {
        is_char_boundary_iff_not_is_continuation_byte(b, p);
        assert(t[a.len() + (p - from)] == b[p]);
        is_char_boundary_iff_not_is_continuation_byte(t, a.len() + (p - from));
    }
}

/// What an edit within a transaction leaves as it was, and what it changes.
pub proof fn lemma_edit_within(
    s: State,
    offsets: Seq<(int, int)>,
    text: Seq<char>,
    now: u64,
)
    requires
        valid_utf8(s.text()),
        good_ranges(s.text(), offsets),
        s.history.depth > 0,
        s.history.undo_stack.len() > 0,
        s.can_tick(),
        s.cells.len() + joined_ranges(offsets, text).len() * encode_utf8(text).len() < usize::MAX,
    ensures
        ({
            let joined = joined_ranges(offsets, text);
            let t = edit_applied(s, joined, text, now, s.requests);
            &&& t.history.depth == s.history.depth
            &&& t.text() == if joined.len() == 0 {
                s.text()
            } else {
                replaced(s.text(), joined, encode_utf8(text))
            }
            &&& t.cells.len() == s.cells.len() + joined.len() * encode_utf8(text).len()
            &&& t.local_clock.value <= s.local_clock.value + 1
            &&& t.lamport_clock.value <= s.lamport_clock.value + 1
            &&& t.requests == s.requests
            &&& t.saved_version == s.saved_version
            &&& t.saved_mtime == s.saved_mtime
        }),
{
    let joined = joined_ranges(offsets, text);
    let bytes = encode_utf8(text);
    if joined.len() == 0 {
        assert(0 * bytes.len() == 0);
    } else {
        lemma_coalesced(s.text(), offsets, bytes.len() > 0, offsets.len() as int);
        lemma_editable(s.cells, offsets, bytes.len() > 0, bytes);
        lemma_local_plan(s.cells, joined, bytes);
        assert(bytes_of(inserted_text(text)) =~= bytes);
        let begun = started(State { pending_autoindent: false, ..s }, None, now);
        law_edit_replaces_text(s.cells, joined, next_timestamp(begun), bytes);
        let plan = local_plan(s.cells, joined);
        let n = joined.len() as int;
        assert forall|j: int| 0 <= j < n implies 0 <= #[trigger] plan.at[j]
            <= s.cells.len() by {
            assert(plan.at[j] <= plan.ends[j]);
        }
        assert forall|i: int, j: int| 0 <= i < j < n implies #[trigger] plan.at[i]
            <= #[trigger] plan.at[j] by {
            assert(plan.at[i] <= plan.ends[i]);
            assert(plan.ends[i] <= plan.at[j]);
        }
        let stamp = next_timestamp(begun);
        lemma_woven_len(
            crate::weave::touched(s.cells, plan, crate::fragment::local_of(stamp)),
            plan.at,
            crate::weave::inserted_cells(stamp, bytes),
            n,
            s.cells.len() as int,
        );
    }
}

/// A single range joins with nothing.
proof fn lemma_joined_once(text: Seq<u8>, ranges: Seq<(int, int)>, new: Seq<char>)
    requires
        ranges.len() <= 1,
        good_ranges(text, ranges),
    ensures
        joined_ranges(ranges, new).len() <= ranges.len(),
        joined_ranges(ranges, new).len() == 0 ==> ranges.len() == 0 || replaced(
            text,
            ranges,
            encode_utf8(new),
        ) == text,
        joined_ranges(ranges, new).len() > 0 ==> joined_ranges(ranges, new) == ranges,
{
    let inserts = encode_utf8(new).len() > 0;
    if ranges.len() == 1 {
        assert(coalesced(ranges, inserts, 0) =~= Seq::empty());
        assert(good_range(text, ranges[0]));
        if !inserts && ranges[0].0 >= ranges[0].1 {
            assert(ranges =~= seq![ranges[0]]);
            lemma_replaced_once(text, ranges[0], encode_utf8(new));
            assert(text.take(ranges[0].0) + encode_utf8(new) + text.skip(ranges[0].1) =~= text);
        } else {
            assert(joined_ranges(ranges, new) =~= ranges);
        }
    }
}

/// The changes of a script, made within a transaction, lead to the new text.
pub proof fn lemma_changes_made(
    s: State,
    changes: Seq<(ChangeTag, usize)>,
    new: Seq<u8>,
    now: u64,
    n: int,
)
    requires
        valid_utf8(s.text()),
        valid_utf8(new),
        is_script(changes, s.text(), new),
        s.history.depth > 0,
        s.history.undo_stack.len() > 0,
        s.cells.len() + new.len() < usize::MAX,
        s.local_clock.value + changes.len() < u32::MAX,
        s.lamport_clock.value + changes.len() < u32::MAX,
        0 <= n <= changes.len(),
    ensures
        ({
            let t = changes_made(s, changes, new, now, n);
            &&& t.text() == halfway(changes, s.text(), new, n)
            &&& valid_utf8(t.text())
            &&& t.history.depth == s.history.depth
            &&& t.history.undo_stack.len() > 0
            &&& t.cells.len() <= s.cells.len() + made(changes, n)
            &&& t.local_clock.value <= s.local_clock.value + n
            &&& t.lamport_clock.value <= s.lamport_clock.value + n
            &&& t.requests == s.requests
            &&& 0 <= made(changes, n) <= new.len()
        }),
    decreases n,
{
    let old = s.text();
    lemma_script(changes, old, new, n);
    if n == 0 {
        assert(halfway(changes, old, new, 0) =~= old);
    } else {
        lemma_changes_made(s, changes, new, now, n - 1);
        lemma_script(changes, old, new, n - 1);
        lemma_halfway(changes, old, new, n - 1);
        let before = changes_made(s, changes, new, now, n - 1);
        let edit = change_edit(changes, new, n - 1);
        let joined = joined_ranges(edit.0, edit.1);
        lemma_joined_once(before.text(), edit.0, edit.1);
        let bytes = encode_utf8(edit.1);
        assert(joined.len() * bytes.len() <= bytes.len()) by (nonlinear_arith)
            requires
                joined.len() <= 1,
        ;
        if changes[n - 1].0 is Equal {
            assert(joined.len() == 0);
            assert(0 * bytes.len() == 0);
        }
        lemma_edit_within(before, edit.0, edit.1, now);
        let head = new.take(made(changes, n));
        let tail = old.skip(used_up(changes, n));
        assert(head =~= new.subrange(0, made(changes, n)));
        assert(tail =~= old.subrange(used_up(changes, n), old.len() as int));
        valid_utf8_split(new, made(changes, n));
        valid_utf8_split(old, used_up(changes, n));
        valid_utf8_concat(head, tail);
    }
}

/// Applying the changes of a diff makes the text the new text.
pub proof fn law_diff_gives_new_text(
    s: State,
    changes: Seq<(ChangeTag, usize)>,
    new: Seq<u8>,
    now: u64,
)
    requires
        valid_utf8(s.text()),
        valid_utf8(new),
        is_script(changes, s.text(), new),
        s.cells.len() + new.len() < usize::MAX,
        s.local_clock.value + changes.len() < u32::MAX,
        s.lamport_clock.value + changes.len() < u32::MAX,
        s.history.depth >= 0,
        s.history.depth > 0 ==> s.history.undo_stack.len() > 0,
    ensures
        diff_applied(s, changes, new, now).text() == new,
{
    let begun = started(s, None, now);
    lemma_changes_made(begun, changes, new, now, changes.len() as int);
    lemma_script(changes, s.text(), new, changes.len() as int);
    let n = changes.len() as int;
    assert(made(changes, n) == new.len() && used_up(changes, n) == s.text().len());
    assert(halfway(changes, s.text(), new, n) =~= new);
}

impl Buffer {
    /// The changes that turn the text into a new one.
    pub fn diff(&self, new_text: String) -> (diff: Diff)
        requires
            self.wf(),
        ensures
            diff.base_version@ == self@.version,
            diff.new_text@ == new_text@,
            diff.changes@ == line_changes(decode_utf8(self@.text()), new_text@),
            is_script(diff.changes@, self@.text(), encode_utf8(new_text@)),
    {
        let old_text = self.text();
        let base_version = self.version();
        let changes = diff_lines(old_text.as_str(), new_text.as_str());
        proof {
            encode_utf8_decode_utf8(old_text@);
        }
        Diff { base_version, new_text, changes }
    }

    /// Makes one change of a diff.
    fn apply_change(
        &mut self,
        changes: &Vec<(ChangeTag, usize)>,
        i: usize,
        offset: usize,
        new_text: &str,
        cx: &mut ModelContext,
    )
        requires
            old(self).wf(),
            i < changes@.len(),
            changes@[i as int].0 !is Equal,
            offset == made(changes@, i as int),
            offset + changes@[i as int].1 <= usize::MAX,
            changes@[i as int].0 is Insert ==> {
                &&& offset + changes@[i as int].1 <= encode_utf8(new_text@).len() <= usize::MAX
                &&& is_char_boundary(encode_utf8(new_text@), offset as int)
                &&& is_char_boundary(encode_utf8(new_text@), offset + changes@[i as int].1)
            },
            ({
                let edit = change_edit(changes@, encode_utf8(new_text@), i as int);
                &&& good_ranges(old(self)@.text(), edit.0)
                &&& edit_has_room(old(self)@, edit.0, edit.1)
            }),
        ensures
            final(self).wf(),
            final(cx).same_place(old(cx)),
            ({
                let s = old(self)@;
                let edit = change_edit(changes@, encode_utf8(new_text@), i as int);
                let joined = joined_ranges(edit.0, edit.1);
                &&& final(self)@ == edit_applied(s, joined, edit.1, old(cx).now, s.requests)
                &&& final(cx)@ == old(cx)@ + edit_effects(
                    s,
                    joined,
                    edit.1,
                    old(cx).now,
                    s.requests,
                )
            }),
    {
        let (tag, len) = changes[i];
        let ghost edit = change_edit(changes@, encode_utf8(new_text@), i as int);
        let mut ranges: Vec<Range<usize>> = Vec::new();
        match tag {
            ChangeTag::Insert => {
                proof {
                    encode_utf8_valid_utf8(new_text@);
                    crate::rope::lemma_slice_is_text(
                        encode_utf8(new_text@),
                        offset as int,
                        offset + len,
                    );
                }
                let text = crate::rope::string_of(new_text.as_bytes(), offset, offset + len);
                proof {
                    encode_utf8_decode_utf8(text@);
                    assert(text@ == edit.1);
                }
                ranges.push(offset..offset);
                assert(offsets_of(ranges@, self@.cells) =~= edit.0);
                self.edit(&ranges, text.as_str(), cx);
            },
            _ => {
                ranges.push(offset..offset + len);
                assert(offsets_of(ranges@, self@.cells) =~= edit.0);
                proof {
                    reveal_strlit("");
                    assert(""@ =~= Seq::<char>::empty());
                }
                self.edit(&ranges, "", cx);
            },
        }
    }

    /// Makes the changes of a diff in one transaction, if it was made for the
    /// current version; reports whether it was.
    pub fn apply_diff(&mut self, diff: Diff, cx: &mut ModelContext) -> (applied: bool)
        requires
            old(self).wf(),
            diff_fits(old(self)@, diff),
        ensures
            final(self).wf(),
            final(cx).same_place(old(cx)),
            applied == same_version(old(self)@.version, diff.base_version@),
            applied ==> {
                let new = encode_utf8(diff.new_text@);
                &&& final(self)@ == diff_applied(old(self)@, diff.changes@, new, old(cx).now)
                &&& final(self)@.text() == new
                &&& final(cx)@ == old(cx)@ + diff_effects(
                    old(self)@,
                    diff.changes@,
                    new,
                    old(cx).now,
                )
            },
            !applied ==> final(self)@ == old(self)@ && final(cx)@ == old(cx)@,
    {
        if !self.version.same_as(&diff.base_version) {
            return false;
        }
        let ghost s = self@;
        let ghost new = encode_utf8(diff.new_text@);
        let ghost now = cx.now;
        let ghost start = cx@;
        proof {
            self.lemma_text();
            encode_utf8_valid_utf8(diff.new_text@);
            law_diff_gives_new_text(s, diff.changes@, new, now);
        }
        let _ = self.start_transaction(None, cx);
        let ghost begun = self@;
        let changes = &diff.changes;
        let mut offset: usize = 0;
        let mut i: usize = 0;
        assert(start + Seq::<EffectModel>::empty() =~= start);
        while i < changes.len()
            invariant
                i <= changes@.len(),
                self.wf(),
                *changes == diff.changes,
                new == encode_utf8(diff.new_text@),
                now == cx.now,
                cx.same_place(old(cx)),
                offset == made(changes@, i as int),
                self@ == changes_made(begun, changes@, new, now, i as int),
                cx@ == start + changes_effects(begun, changes@, new, now, i as int),
                valid_utf8(begun.text()),
                valid_utf8(new),
                is_script(changes@, begun.text(), new),
                begun.history.depth > 0,
                begun.history.depth < usize::MAX,
                begun.history.undo_stack.len() > 0,
                begun.cells.len() + new.len() < usize::MAX,
                begun.local_clock.value + changes@.len() < u32::MAX,
                begun.lamport_clock.value + changes@.len() < u32::MAX,
            decreases changes@.len() - i,
        {
            proof {
                lemma_changes_made(begun, changes@, new, now, i as int);
                lemma_script(changes@, begun.text(), new, i as int);
                lemma_script(changes@, begun.text(), new, i + 1);
                lemma_halfway(changes@, begun.text(), new, i as int);
                let edit = change_edit(changes@, new, i as int);
                lemma_joined_once(self@.text(), edit.0, edit.1);
                let bytes = encode_utf8(edit.1);
                let joined = joined_ranges(edit.0, edit.1);
                assert(joined.len() * bytes.len() <= bytes.len()) by (nonlinear_arith)
                    requires
                        joined.len() <= 1,
                ;
            }
            let (tag, len) = changes[i];
            let ghost before = self@;
            let ghost effects = cx@;
            match tag {
                ChangeTag::Equal => {
                    proof {
                        let edit = change_edit(changes@, new, i as int);
                        assert(joined_ranges(edit.0, edit.1).len() == 0);
                        assert(effects + Seq::<EffectModel>::empty() =~= effects);
                        let sofar = changes_effects(begun, changes@, new, now, i as int);
                        assert(sofar + Seq::<EffectModel>::empty() =~= sofar);
                    }
                    offset = offset + len;
                },
                ChangeTag::Delete => {
                    proof {
                        self.lemma_text();
                        let edit = change_edit(changes@, new, i as int);
                        assert(good_range(self@.text(), edit.0[0]));
                    }
                    self.apply_change(changes, i, offset, diff.new_text.as_str(), cx);
                },
                ChangeTag::Insert => {
                    self.apply_change(changes, i, offset, diff.new_text.as_str(), cx);
                    offset = offset + len;
                },
            }
            proof {
                let edit = change_edit(changes@, new, i as int);
                let sofar = changes_effects(begun, changes@, new, now, i as int);
                let more = edit_effects(
                    before,
                    joined_ranges(edit.0, edit.1),
                    edit.1,
                    now,
                    before.requests,
                );
                assert(start + sofar + more =~= start + (sofar + more));
            }
            i = i + 1;
        }
        proof {
            lemma_changes_made(begun, changes@, new, now, changes@.len() as int);
        }
        let ghost changed = self@;
        let _ = self.end_transaction(None, cx);
        proof {
            let a = changes_effects(begun, changes@, new, now, changes@.len() as int);
            let b = ended_effects(changed, None, now);
            assert(start + a + b =~= start + (a + b));
        }
        true
    }

    /// Makes the text what a file holds, and takes it for saved.
    pub fn set_text_from_disk(&mut self, new_text: String, cx: &mut ModelContext)
        requires
            old(self).wf(),
            text_fits(old(self)@, new_text@),
        ensures
            final(self).wf(),
            final(cx).same_place(old(cx)),
            ({
                let s = old(self)@;
                let new = encode_utf8(new_text@);
                let changes = line_changes(decode_utf8(s.text()), new_text@);
                let done = diff_applied(s, changes, new, old(cx).now);
                &&& final(self)@ == (State { saved_version: done.version, ..done })
                &&& final(self)@.text() == new
                &&& final(cx)@ == old(cx)@ + diff_effects(s, changes, new, old(cx).now)
            }),
    {
        let diff = self.diff(new_text);
        proof {
            self.lemma_text();
            encode_utf8_valid_utf8(new_text@);
            lemma_script(
                diff.changes@,
                self@.text(),
                encode_utf8(new_text@),
                diff.changes@.len() as int,
            );
        }
        if self.apply_diff(diff, cx) {
            let ghost doc = self.doc();
            self.saved_version = self.version.clone();
            assert(self.doc() == doc);
        }
    }

    /// Makes the text what a file holds that was modified at `mtime`, takes it
    /// for saved, and reports it.
    pub fn reload(&mut self, new_text: String, mtime: u64, cx: &mut ModelContext)
        requires
            old(self).wf(),
            text_fits(old(self)@, new_text@),
        ensures
            final(self).wf(),
            final(cx).same_place(old(cx)),
            ({
                let s = old(self)@;
                let new = encode_utf8(new_text@);
                let changes = line_changes(decode_utf8(s.text()), new_text@);
                let done = diff_applied(s, changes, new, old(cx).now);
                &&& final(self)@ == (State {
                    saved_version: done.version,
                    saved_mtime: mtime,
                    ..done
                })
                &&& final(self)@.text() == new
                &&& final(cx)@ == (old(cx)@ + diff_effects(s, changes, new, old(cx).now)).push(
                    EffectModel::Emit(Event::Reloaded),
                )
            }),
    {
        let diff = self.diff(new_text);
        proof {
            self.lemma_text();
            encode_utf8_valid_utf8(new_text@);
            lemma_script(
                diff.changes@,
                self@.text(),
                encode_utf8(new_text@),
                diff.changes@.len() as int,
            );
        }
        if self.apply_diff(diff, cx) {
            let ghost doc = self.doc();
            self.saved_version = self.version.clone();
            self.saved_mtime = mtime;
            assert(self.doc() == doc);
            cx.emit(Event::Reloaded);
        }
    }
}

/// There is room for a new text, and there are clock values for its changes,
/// however many there are.
pub open spec fn text_fits(s: State, new_text: Seq<char>) -> bool {
    let new = encode_utf8(new_text);
    &&& s.cells.len() + new.len() < usize::MAX
    &&& s.local_clock.value + s.text().len() + new.len() < u32::MAX
    &&& s.lamport_clock.value + s.text().len() + new.len() < u32::MAX
    &&& s.history.depth + 1 < usize::MAX
}

/// The changes of the diff turn the text into the new one, if it was made for
/// the current version, and there is room for them.
pub open spec fn diff_fits(s: State, diff: Diff) -> bool {
    same_version(s.version, diff.base_version@) ==> {
        &&& is_script(diff.changes@, s.text(), encode_utf8(diff.new_text@))
        &&& s.cells.len() + encode_utf8(diff.new_text@).len() < usize::MAX
        &&& s.local_clock.value + diff.changes@.len() < u32::MAX
        &&& s.lamport_clock.value + diff.changes@.len() < u32::MAX
        &&& s.history.depth + 1 < usize::MAX
    }
}

} // verus!
