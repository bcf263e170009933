//! What the ranges of a transaction cover once it has gathered one more edit.

use vstd::prelude::*;

use crate::history::{TransactionModel, absorbed_ranges, merged_ranges, shifted_ranges, with_edit};
use crate::operation::{EditModel, bytes_of};

verus! {

/// A place lies in one of the ranges.
pub open spec fn covered(ranges: Seq<(int, int)>, x: int) -> bool {
    exists|i: int| 0 <= i < ranges.len() && (#[trigger] ranges[i]).0 <= x < ranges[i].1
}

/// The ranges follow each other with a gap between them.
pub open spec fn apart(ranges: Seq<(int, int)>) -> bool {
    &&& forall|i: int| 0 <= i < ranges.len() ==> 0 <= (#[trigger] ranges[i]).0 <= ranges[i].1
    &&& forall|i: int, j: int|
        0 <= i < j < ranges.len() ==> (#[trigger] ranges[i]).1 < (#[trigger] ranges[j]).0
}

/// How far a place is moved by texts of `len` bytes inserted at the starts of some
/// ranges: once for each that does not start behind it.
pub open spec fn moved(ranges: Seq<(int, int)>, len: int, x: int) -> int
    decreases ranges.len(),
{
    if ranges.len() == 0 {
        0
    } else {
        (if ranges[0].0 <= x {
            len
        } else {
            0
        }) + moved(ranges.drop_first(), len, x)
    }
}

/// A place lies in one of those texts; the first range has been moved by `by` bytes.
pub open spec fn in_new_text(ranges: Seq<(int, int)>, len: int, by: int, x: int) -> bool
    decreases ranges.len(),
{
    ranges.len() > 0 && (ranges[0].0 + by <= x < ranges[0].0 + by + len || in_new_text(
        ranges.drop_first(),
        len,
        by + len,
        x,
    ))
}

/// No offset is too large.
spec fn small(
    range: (int, int),
    ranges: Seq<(int, int)>,
    others: Seq<(int, int)>,
    len: int,
    by: int,
    room: int,
) -> bool {
    &&& 0 <= len
    &&& 0 <= by
    &&& range.1 <= room
    &&& forall|i: int| 0 <= i < ranges.len() ==> (#[trigger] ranges[i]).1 + by <= room
    &&& forall|i: int| 0 <= i < others.len() ==> (#[trigger] others[i]).1 + by <= room
    &&& room + total(others, len) <= usize::MAX
}

spec fn total(others: Seq<(int, int)>, len: int) -> int
    decreases others.len(),
{
    if others.len() == 0 {
        0
    } else {
        len + total(others.drop_first(), len)
    }
}

proof fn lemma_total(others: Seq<(int, int)>, len: int)
    requires
        len >= 0,
    ensures
        total(others, len) >= 0,
        total(others, len) == others.len() * len,
    decreases others.len(),
{
    if others.len() > 0 {
        lemma_total(others.drop_first(), len);
        assert(others.len() * len == len + (others.len() - 1) * len) by (nonlinear_arith);
    } else {
        assert(0 * len == 0) by (nonlinear_arith);
    }
}

proof fn lemma_apart_rest(others: Seq<(int, int)>)
    requires
        apart(others),
        others.len() > 0,
    ensures
        apart(others.drop_first()),
        forall|i: int|
            0 <= i < others.len() - 1 ==> (#[trigger] others.drop_first()[i]).0 > others[0].1,
{
    let rest = others.drop_first();
    assert forall|i: int| 0 <= i < rest.len() implies 0 <= (#[trigger] rest[i]).0 <= rest[i].1 by {
        assert(rest[i] == others[i + 1]);
    }
    assert forall|i: int, j: int| 0 <= i < j < rest.len() implies (#[trigger] rest[i]).1 < (
    #[trigger] rest[j]).0 by {
        assert(rest[i] == others[i + 1]);
        assert(rest[j] == others[j + 1]);
    }
    assert forall|i: int| 0 <= i < others.len() - 1 implies (#[trigger] rest[i]).0
        > others[0].1 by {
        assert(rest[i] == others[i + 1]);
    }
}

/// Nothing is moved that lies before all the ranges.
proof fn lemma_unmoved(others: Seq<(int, int)>, len: int, x: int)
    requires
        forall|i: int| 0 <= i < others.len() ==> (#[trigger] others[i]).0 > x,
    ensures
        moved(others, len, x) == 0,
    decreases others.len(),
{
    if others.len() > 0 {
        let rest = others.drop_first();
        assert(others[0].0 > x);
        assert forall|i: int| 0 <= i < rest.len() implies (#[trigger] rest[i]).0 > x by {
            assert(rest[i] == others[i + 1]);
        }
        lemma_unmoved(rest, len, x);
    }
}

proof fn lemma_covered_rest(ranges: Seq<(int, int)>, x: int)
    requires
        ranges.len() > 0,
    ensures
        covered(ranges, x) <==> (ranges[0].0 <= x < ranges[0].1) || covered(
            ranges.drop_first(),
            x,
        ),
{
    let rest = ranges.drop_first();
    if covered(ranges, x) {
        let i = choose|i: int| 0 <= i < ranges.len() && (#[trigger] ranges[i]).0 <= x < ranges[i].1;
        if i > 0 {
            assert(rest[i - 1] == ranges[i]);
        }
    }
    if covered(rest, x) {
        let i = choose|i: int| 0 <= i < rest.len() && (#[trigger] rest[i]).0 <= x < rest[i].1;
        assert(ranges[i + 1] == rest[i]);
    }
}

proof fn lemma_covered_first(range: (int, int), ranges: Seq<(int, int)>, x: int)
    ensures
        covered(seq![range] + ranges, x) <==> (range.0 <= x < range.1) || covered(ranges, x),
{
    let all = seq![range] + ranges;
    lemma_covered_rest(all, x);
    assert(all.drop_first() =~= ranges);
}

/// Where the place `y` goes, which lies among ranges that have been moved by `by`.
spec fn image(others: Seq<(int, int)>, len: int, by: int, y: int) -> int {
    y + moved(others, len, y - by)
}

/// The place `y` is covered by `range`, by the ranges or by the others.
spec fn from(
    range: (int, int),
    ranges: Seq<(int, int)>,
    others: Seq<(int, int)>,
    by: int,
    y: int,
) -> bool {
    range.0 <= y < range.1 || covered(ranges, y - by) || covered(others, y - by)
}

/// The place `x` is where a covered place goes, or lies in the new text.
spec fn stems(
    range: (int, int),
    ranges: Seq<(int, int)>,
    others: Seq<(int, int)>,
    len: int,
    by: int,
    x: int,
) -> bool {
    in_new_text(others, len, by, x) || exists|y: int|
        #![trigger image(others, len, by, y)]
        from(range, ranges, others, by, y) && image(others, len, by, y) == x
}

/// Where a place goes once one of the others has been dealt with.
proof fn lemma_step(others: Seq<(int, int)>, len: int, by: int, y: int)
    requires
        others.len() > 0,
        apart(others),
        len >= 0,
    ensures
        y - by < others[0].0 ==> image(others, len, by, y) == y,
        y - by >= others[0].0 ==> image(others, len, by, y) == image(
            others.drop_first(),
            len,
            by + len,
            y + len,
        ),
        y - by - len < others[0].0 ==> image(others.drop_first(), len, by + len, y) == y,
{
    lemma_apart_rest(others);
    let rest = others.drop_first();
    if y - by < others[0].0 {
        assert forall|i: int| 0 <= i < others.len() implies (#[trigger] others[i]).0 > y - by by {
            if i > 0 {
                assert(others[0].1 < others[i].0);
            }
        }
        lemma_unmoved(others, len, y - by);
    } else {
        assert(y + len - (by + len) == y - by);
    }
    if y - by - len < others[0].0 {
        assert forall|i: int| 0 <= i < rest.len() implies (#[trigger] rest[i]).0 > y - (by
            + len) by {
            assert(rest[i] == others[i + 1]);
            assert(others[0].1 < others[i + 1].0);
        }
        lemma_unmoved(rest, len, y - (by + len));
    }
}

proof fn lemma_shifted(others: Seq<(int, int)>, len: int, by: int, x: int, room: int)
    requires
        apart(others),
        small((0, 0), Seq::empty(), others, len, by, room),
    ensures
        covered(shifted_ranges(others, len, by), x) <==> stems(
            (0, 0),
            Seq::empty(),
            others,
            len,
            by,
            x,
        ),
    decreases others.len(),
{
    let none = Seq::<(int, int)>::empty();
    if others.len() > 0 {
        let rest = others.drop_first();
        let s = others[0].0 + by;
        let e = others[0].1 + by;
        lemma_apart_rest(others);
        lemma_total(rest, len);
        assert(others[0].1 + by <= room);
        assert forall|i: int| 0 <= i < rest.len() implies (#[trigger] rest[i]).1 + (by + len)
            <= room + len by {
            assert(rest[i] == others[i + 1]);
        }
        lemma_shifted(rest, len, by + len, x, room + len);
        let more = shifted_ranges(rest, len, by + len);
        lemma_covered_first((s, e + len), more, x);
        assert(shifted_ranges(others, len, by) =~= seq![(s, e + len)] + more);
        if stems((0, 0), none, rest, len, by + len, x) && !in_new_text(rest, len, by + len, x) {
            let y = choose|y: int|
                #![trigger image(rest, len, by + len, y)]
                from((0, 0), none, rest, by + len, y) && image(rest, len, by + len, y) == x;
            lemma_step(others, len, by, y - len);
            lemma_covered_rest(others, y - len - by);
            let i = choose|i: int|
                0 <= i < rest.len() && (#[trigger] rest[i]).0 <= y - (by + len) < rest[i].1;
            assert(rest[i].0 > others[0].1);
            assert(image(others, len, by, y - len) == x);
            assert(from((0, 0), none, others, by, y - len));
        }
        if s <= x < e + len {
            if x >= s + len {
                let y = x - len;
                lemma_step(others, len, by, y);
                lemma_covered_rest(others, y - by);
                assert forall|i: int| 0 <= i < rest.len() implies (#[trigger] rest[i]).0 > y
                    - by by {
                    assert(rest[i].0 > others[0].1);
                }
                lemma_unmoved(rest, len, y - by);
                assert(image(others, len, by, y) == x);
                assert(from((0, 0), none, others, by, y));
            }
        }
        if stems((0, 0), none, others, len, by, x) && !in_new_text(others, len, by, x) {
            let y = choose|y: int|
                #![trigger image(others, len, by, y)]
                from((0, 0), none, others, by, y) && image(others, len, by, y) == x;
            lemma_step(others, len, by, y);
            lemma_covered_rest(others, y - by);
            if covered(rest, y - by) {
                let i = choose|i: int|
                    0 <= i < rest.len() && (#[trigger] rest[i]).0 <= y - by < rest[i].1;
                assert(rest[i].0 > others[0].1);
                assert(image(rest, len, by + len, y + len) == x);
                assert(from((0, 0), none, rest, by + len, y + len));
            } else {
                assert forall|i: int| 0 <= i < rest.len() implies (#[trigger] rest[i]).0 > y
                    - by by {
                    assert(rest[i].0 > others[0].1);
                }
                lemma_unmoved(rest, len, y - by);
                assert(x == y + len);
            }
        }
    }
}

/// What one of the others covers goes behind its text.
proof fn lemma_first_other(others: Seq<(int, int)>, len: int, by: int, y: int)
    requires
        others.len() > 0,
        apart(others),
        others[0].0 + by <= y < others[0].1 + by,
    ensures
        image(others, len, by, y) == y + len,
{
    lemma_apart_rest(others);
    let rest = others.drop_first();
    assert forall|i: int| 0 <= i < rest.len() implies (#[trigger] rest[i]).0 > y - by by {
        assert(rest[i].0 > others[0].1);
    }
    lemma_unmoved(rest, len, y - by);
}

/// What is left of a range once one of the others has been dealt with.
spec fn after_other(range: (int, int), s: int, e: int, len: int) -> (int, int) {
    if e < range.0 {
        (range.0 + len, range.1 + len)
    } else {
        (
            if s < range.0 {
                s
            } else {
                range.0
            },
            (if e > range.1 {
                e
            } else {
                range.1
            }) + len,
        )
    }
}

/// What stems from what is left once one of the others has been dealt with stems from
/// what there was.
proof fn lemma_stems_on(
    range: (int, int),
    ranges: Seq<(int, int)>,
    others: Seq<(int, int)>,
    len: int,
    by: int,
    x: int,
)
    requires
        apart(others),
        len >= 0,
        others.len() > 0,
        others[0].0 + by <= range.1,
        range.0 <= range.1,
        forall|i: int| 0 <= i < ranges.len() ==> range.1 < (#[trigger] ranges[i]).0 + by,
        stems(
            after_other(range, others[0].0 + by, others[0].1 + by, len),
            ranges,
            others.drop_first(),
            len,
            by + len,
            x,
        ),
    ensures
        stems(range, ranges, others, len, by, x),
{
    let rest = others.drop_first();
    let s = others[0].0 + by;
    let e = others[0].1 + by;
    let next = after_other(range, s, e, len);
    lemma_apart_rest(others);
    if !in_new_text(rest, len, by + len, x) {
        let z = choose|y: int|
            #![trigger image(rest, len, by + len, y)]
            from(next, ranges, rest, by + len, y) && image(rest, len, by + len, y) == x;
        let y = z - len;
        lemma_step(others, len, by, y);
        lemma_step(others, len, by, z);
        lemma_covered_rest(others, y - by);
        lemma_covered_rest(others, z - by);
        assert(y - by == z - (by + len));
        if covered(ranges, z - (by + len)) {
            let i = choose|i: int|
                0 <= i < ranges.len() && (#[trigger] ranges[i]).0 <= y - by < ranges[i].1;
            assert(range.1 < ranges[i].0 + by);
            assert(image(others, len, by, y) == x);
            assert(from(range, ranges, others, by, y));
        } else if covered(rest, z - (by + len)) {
            let i = choose|i: int|
                0 <= i < rest.len() && (#[trigger] rest[i]).0 <= y - by < rest[i].1;
            assert(rest[i].0 > others[0].1);
            assert(image(others, len, by, y) == x);
            assert(from(range, ranges, others, by, y));
        } else if z < s {
            assert(image(others, len, by, z) == x);
            assert(from(range, ranges, others, by, z));
        } else if z >= s + len {
            assert(image(others, len, by, y) == x);
            assert(from(range, ranges, others, by, y));
        }
    }
}

/// What stems from what there was stems from what is left, or from the other itself if
/// that stays apart.
proof fn lemma_stems_back(
    range: (int, int),
    ranges: Seq<(int, int)>,
    others: Seq<(int, int)>,
    len: int,
    by: int,
    x: int,
)
    requires
        apart(others),
        len >= 0,
        others.len() > 0,
        others[0].0 + by <= range.1,
        range.0 <= range.1,
        forall|i: int| 0 <= i < ranges.len() ==> range.1 < (#[trigger] ranges[i]).0 + by,
        stems(range, ranges, others, len, by, x),
    ensures
        stems(
            after_other(range, others[0].0 + by, others[0].1 + by, len),
            ranges,
            others.drop_first(),
            len,
            by + len,
            x,
        ) || (others[0].1 + by < range.0 && others[0].0 + by <= x < others[0].1 + by + len),
{
    let rest = others.drop_first();
    let s = others[0].0 + by;
    let e = others[0].1 + by;
    let next = after_other(range, s, e, len);
    lemma_apart_rest(others);
    assert(others[0].0 <= others[0].1);
    if in_new_text(others, len, by, x) {
        if s <= x < s + len && !(e < range.0) {
            lemma_step(others, len, by, x);
            assert(image(rest, len, by + len, x) == x);
            assert(from(next, ranges, rest, by + len, x));
        }
    } else {
        let y = choose|y: int|
            #![trigger image(others, len, by, y)]
            from(range, ranges, others, by, y) && image(others, len, by, y) == x;
        let z = y + len;
        lemma_step(others, len, by, y);
        lemma_covered_rest(others, y - by);
        assert(z - (by + len) == y - by);
        if s <= y < e {
            lemma_first_other(others, len, by, y);
        }
        if covered(ranges, y - by) {
            let i = choose|i: int|
                0 <= i < ranges.len() && (#[trigger] ranges[i]).0 <= y - by < ranges[i].1;
            assert(range.1 < ranges[i].0 + by);
            assert(image(rest, len, by + len, z) == x);
            assert(from(next, ranges, rest, by + len, z));
        } else if covered(rest, y - by) {
            let i = choose|i: int|
                0 <= i < rest.len() && (#[trigger] rest[i]).0 <= y - by < rest[i].1;
            assert(rest[i].0 > others[0].1);
            assert(image(rest, len, by + len, z) == x);
            assert(from(next, ranges, rest, by + len, z));
        } else if s <= y < e && e < range.0 {
            assert(x == y + len);
        } else if y < s {
            assert(image(rest, len, by + len, y) == x);
            assert(from(next, ranges, rest, by + len, y));
        } else {
            assert(image(rest, len, by + len, z) == x);
            assert(from(next, ranges, rest, by + len, z));
        }
    }
}

proof fn lemma_absorbed(
    range: (int, int),
    ranges: Seq<(int, int)>,
    others: Seq<(int, int)>,
    len: int,
    by: int,
    x: int,
    room: int,
)
    requires
        apart(ranges),
        apart(others),
        0 <= range.0 <= range.1,
        (others.len() > 0 && others[0].0 + by <= range.1) ==> forall|i: int|
            0 <= i < ranges.len() ==> range.1 < (#[trigger] ranges[i]).0 + by,
        small(range, ranges, others, len, by, room),
    ensures
        covered(absorbed_ranges(range, ranges, others, len, by), x) <==> stems(
            range,
            ranges,
            others,
            len,
            by,
            x,
        ),
    decreases ranges.len(), 1int, others.len(),
{
    lemma_total(others, len);
    if others.len() > 0 {
        assert(others[0].0 <= others[0].1);
        assert(others[0].1 + by <= room);
        lemma_total(others.drop_first(), len);
    }
    if others.len() > 0 && others[0].0 + by <= range.1 {
        let rest = others.drop_first();
        let s = others[0].0 + by;
        let e = others[0].1 + by;
        lemma_apart_rest(others);
        assert forall|i: int| 0 <= i < rest.len() implies (#[trigger] rest[i]).1 + (by + len)
            <= room + len by {
            assert(rest[i] == others[i + 1]);
        }
        assert forall|i: int| 0 <= i < ranges.len() implies (#[trigger] ranges[i]).1 + (by + len)
            <= room + len by {
            assert(ranges[i].1 + by <= room);
        }
        let next = after_other(range, s, e, len);
        let more = absorbed_ranges(next, ranges, rest, len, by + len);
        if e < range.0 {
            lemma_covered_first((s, e + len), more, x);
            assert(absorbed_ranges(range, ranges, others, len, by) =~= seq![(s, e + len)] + more);
        } else {
            assert(absorbed_ranges(range, ranges, others, len, by) == more);
        }
        if rest.len() > 0 && rest[0].0 + (by + len) <= next.1 {
            assert(rest[0].0 > others[0].1);
            assert forall|i: int| 0 <= i < ranges.len() implies next.1 < (
            #[trigger] ranges[i]).0 + (by + len) by {
                assert(range.1 < ranges[i].0 + by);
            }
        }
        lemma_absorbed(next, ranges, rest, len, by + len, x, room + len);
        if stems(next, ranges, rest, len, by + len, x) {
            lemma_stems_on(range, ranges, others, len, by, x);
        }
        if stems(range, ranges, others, len, by, x) {
            lemma_stems_back(range, ranges, others, len, by, x);
        }
        if e < range.0 && s + len <= x < e + len {
            lemma_first_other(others, len, by, x - len);
            lemma_covered_rest(others, x - len - by);
            assert(image(others, len, by, x - len) == x);
            assert(from(range, ranges, others, by, x - len));
        }
    } else {
        let more = merged_ranges(ranges, others, len, by);
        lemma_merged(ranges, others, len, by, x, room);
        lemma_covered_first(range, more, x);
        assert(absorbed_ranges(range, ranges, others, len, by) =~= seq![range] + more);
        assert forall|y: int| range.0 <= y < range.1 implies #[trigger] image(others, len, by, y)
            == y by {
            assert forall|i: int| 0 <= i < others.len() implies (#[trigger] others[i]).0 > y
                - by by {
                if i > 0 {
                    assert(others[0].1 < others[i].0);
                }
            }
            lemma_unmoved(others, len, y - by);
        }
        if stems(range, ranges, others, len, by, x) && !in_new_text(others, len, by, x) {
            let y = choose|y: int|
                #![trigger image(others, len, by, y)]
                from(range, ranges, others, by, y) && image(others, len, by, y) == x;
            if !(range.0 <= y < range.1) {
                assert(from((0, 0), ranges, others, by, y));
            }
        }
        if stems((0, 0), ranges, others, len, by, x) && !in_new_text(others, len, by, x) {
            let y = choose|y: int|
                #![trigger image(others, len, by, y)]
                from((0, 0), ranges, others, by, y) && image(others, len, by, y) == x;
            assert(from(range, ranges, others, by, y));
        }
        if range.0 <= x < range.1 {
            assert(image(others, len, by, x) == x);
            assert(from(range, ranges, others, by, x));
        }
    }
}

proof fn lemma_merged(
    ranges: Seq<(int, int)>,
    others: Seq<(int, int)>,
    len: int,
    by: int,
    x: int,
    room: int,
)
    requires
        apart(ranges),
        apart(others),
        small((0, 0), ranges, others, len, by, room),
    ensures
        covered(merged_ranges(ranges, others, len, by), x) <==> stems(
            (0, 0),
            ranges,
            others,
            len,
            by,
            x,
        ),
    decreases ranges.len(), 0int, others.len(),
{
    if ranges.len() == 0 {
        assert(ranges =~= Seq::empty());
        lemma_shifted(others, len, by, x, room);
    } else {
        let first = (ranges[0].0 + by, ranges[0].1 + by);
        let rest = ranges.drop_first();
        lemma_apart_rest(ranges);
        lemma_total(others, len);
        assert(ranges[0].1 + by <= room);
        assert(0 <= ranges[0].0 <= ranges[0].1);
        assert forall|i: int| 0 <= i < rest.len() implies (#[trigger] rest[i]).1 + by <= room by {
            assert(rest[i] == ranges[i + 1]);
        }
        assert forall|i: int| 0 <= i < rest.len() implies first.1 < (#[trigger] rest[i]).0 + by by {
            assert(rest[i].0 > ranges[0].1);
        }
        lemma_absorbed(first, rest, others, len, by, x, room);
        assert(merged_ranges(ranges, others, len, by) == absorbed_ranges(
            first,
            rest,
            others,
            len,
            by,
        ));
        assert forall|y: int| #[trigger]
            image(others, len, by, y) == x implies from(first, rest, others, by, y) == from(
            (0, 0),
            ranges,
            others,
            by,
            y,
        ) by {
            lemma_covered_rest(ranges, y - by);
        }
        if stems(first, rest, others, len, by, x) && !in_new_text(others, len, by, x) {
            let y = choose|y: int|
                #![trigger image(others, len, by, y)]
                from(first, rest, others, by, y) && image(others, len, by, y) == x;
            assert(from((0, 0), ranges, others, by, y));
        }
        if stems((0, 0), ranges, others, len, by, x) && !in_new_text(others, len, by, x) {
            let y = choose|y: int|
                #![trigger image(others, len, by, y)]
                from((0, 0), ranges, others, by, y) && image(others, len, by, y) == x;
            assert(from(first, rest, others, by, y));
        }
    }
}

/// The ranges of a transaction that gathers an edit cover the text of the edit, and what
/// they or the ranges of the edit covered before, moved behind the texts inserted up to
/// there; and they cover nothing else.
pub proof fn law_gathered_ranges(t: TransactionModel, edit: EditModel, room: int, x: int)
    requires
        apart(t.ranges),
        apart(edit.ranges),
        forall|i: int| 0 <= i < t.ranges.len() ==> (#[trigger] t.ranges[i]).1 <= room,
        forall|i: int| 0 <= i < edit.ranges.len() ==> (#[trigger] edit.ranges[i]).1 <= room,
        0 <= room,
        room + edit.ranges.len() * bytes_of(edit.new_text).len() <= usize::MAX,
    ensures
        ({
            let len = bytes_of(edit.new_text).len() as int;
            covered(with_edit(t, edit).ranges, x) <==> in_new_text(edit.ranges, len, 0, x)
                || exists|y: int|
                (covered(t.ranges, y) || covered(edit.ranges, y)) && y + #[trigger] moved(
                    edit.ranges,
                    len,
                    y,
                ) == x
        }),
{
    let len = bytes_of(edit.new_text).len() as int;
    lemma_total(edit.ranges, len);
    assert(edit.ranges.len() * len == edit.ranges.len() * bytes_of(edit.new_text).len());
    lemma_merged(t.ranges, edit.ranges, len, 0, x, room);
    if stems((0, 0), t.ranges, edit.ranges, len, 0, x) && !in_new_text(edit.ranges, len, 0, x) {
        let y = choose|y: int|
            #![trigger image(edit.ranges, len, 0, y)]
            from((0, 0), t.ranges, edit.ranges, 0, y) && image(edit.ranges, len, 0, y) == x;
        assert(y + moved(edit.ranges, len, y) == x);
    }
    if exists|y: int|
        (covered(t.ranges, y) || covered(edit.ranges, y)) && y + #[trigger] moved(
            edit.ranges,
            len,
            y,
        ) == x {
        let y = choose|y: int|
            (covered(t.ranges, y) || covered(edit.ranges, y)) && y + #[trigger] moved(
                edit.ranges,
                len,
                y,
            ) == x;
        assert(image(edit.ranges, len, 0, y) == x);
        assert(from((0, 0), t.ranges, edit.ranges, 0, y));
    }
}

} // verus!
