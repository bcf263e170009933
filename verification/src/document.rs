//! What a document means: a sequence of cells, one for each byte that was ever
//! inserted, in document order.

use vstd::prelude::*;
use vstd::utf8::*;

use crate::clock::{Local, Version, observes};
use crate::fragment::{InsertionTimestamp, Piece, local_of};
use crate::rope::is_text;

verus! {

/// One byte of a document, with what is known of the fragment that it is part
/// of. `head` marks the first byte of a fragment.
#[verifier::ext_equal]
pub ghost struct Cell {
    pub byte: u8,
    pub head: bool,
    pub timestamp: InsertionTimestamp,
    pub visible: bool,
    pub deletions: Set<Local>,
    pub max_undos: Version,
}

/// The cell of a byte of a fragment.
pub open spec fn cell_of(p: Piece, byte: u8, head: bool) -> Cell {
    Cell {
        byte,
        head,
        timestamp: p.timestamp,
        visible: p.visible,
        deletions: p.deletions,
        max_undos: p.max_undos,
    }
}

/// The cells of a fragment with the given text.
pub open spec fn run_cells(p: Piece, text: Seq<u8>) -> Seq<Cell> {
    Seq::new(text.len(), |i: int| cell_of(p, text[i], i == 0))
}

/// How much visible text the first `i` fragments have.
pub open spec fn vis_before(pieces: Seq<Piece>, i: int) -> int
    decreases i,
{
    if i <= 0 {
        0
    } else {
        vis_before(pieces, i - 1) + if pieces[i - 1].visible {
            pieces[i - 1].len as int
        } else {
            0
        }
    }
}

/// How much deleted text the first `i` fragments have.
pub open spec fn del_before(pieces: Seq<Piece>, i: int) -> int
    decreases i,
{
    if i <= 0 {
        0
    } else {
        del_before(pieces, i - 1) + if pieces[i - 1].visible {
            0
        } else {
            pieces[i - 1].len as int
        }
    }
}

/// How much text the first `i` fragments have whose insertion `v` had seen.
pub open spec fn seen_before(pieces: Seq<Piece>, v: Version, i: int) -> int
    decreases i,
{
    if i <= 0 {
        0
    } else {
        seen_before(pieces, v, i - 1) + if observes(v, local_of(pieces[i - 1].timestamp)) {
            pieces[i - 1].len as int
        } else {
            0
        }
    }
}

/// How many of the first `i` cells are visible.
pub open spec fn visible_rank(cells: Seq<Cell>, i: int) -> int
    decreases i,
{
    if i <= 0 {
        0
    } else {
        visible_rank(cells, i - 1) + if cells[i - 1].visible {
            1int
        } else {
            0
        }
    }
}

/// How many of the first `i` cells have an insertion that `v` had seen.
pub open spec fn seen_rank(cells: Seq<Cell>, v: Version, i: int) -> int
    decreases i,
{
    if i <= 0 {
        0
    } else {
        seen_rank(cells, v, i - 1) + if observes(v, local_of(cells[i - 1].timestamp)) {
            1int
        } else {
            0
        }
    }
}

/// Every cell has been seen by the version.
pub open spec fn all_seen(cells: Seq<Cell>, v: Version) -> bool {
    forall|i: int| 0 <= i < cells.len() ==> observes(v, local_of((#[trigger] cells[i]).timestamp))
}

/// The bytes of the cells that are visible, or of those that are not.
pub open spec fn bytes_where(cells: Seq<Cell>, visible: bool) -> Seq<u8>
    decreases cells.len(),
{
    if cells.len() == 0 {
        Seq::empty()
    } else if cells.last().visible == visible {
        bytes_where(cells.drop_last(), visible).push(cells.last().byte)
    } else {
        bytes_where(cells.drop_last(), visible)
    }
}

/// The text that a document shows.
pub open spec fn visible_text(cells: Seq<Cell>) -> Seq<u8> {
    bytes_where(cells, true)
}

/// The text that a document holds and does not show.
pub open spec fn deleted_text(cells: Seq<Cell>) -> Seq<u8> {
    bytes_where(cells, false)
}

/// A document as it is stored: fragments, the visible text of all of them in a
/// row, and their deleted text in a row.
#[verifier::ext_equal]
pub ghost struct Doc {
    pub pieces: Seq<Piece>,
    pub visible: Seq<u8>,
    pub deleted: Seq<u8>,
}

impl Doc {
    /// The number of fragments.
    pub open spec fn n(self) -> int {
        self.pieces.len() as int
    }

    /// How much text the first `i` fragments have.
    pub open spec fn len_before(self, i: int) -> int {
        vis_before(self.pieces, i) + del_before(self.pieces, i)
    }

    /// The text of fragment `i`.
    pub open spec fn text(self, i: int) -> Seq<u8> {
        if self.pieces[i].visible {
            self.visible.subrange(
                vis_before(self.pieces, i),
                vis_before(self.pieces, i) + self.pieces[i].len,
            )
        } else {
            self.deleted.subrange(
                del_before(self.pieces, i),
                del_before(self.pieces, i) + self.pieces[i].len,
            )
        }
    }

    /// The cells of the first `i` fragments.
    pub open spec fn cells_before(self, i: int) -> Seq<Cell>
        decreases i,
    {
        if i <= 0 {
            Seq::empty()
        } else {
            self.cells_before(i - 1) + run_cells(self.pieces[i - 1], self.text(i - 1))
        }
    }

    /// The cells of the document.
    pub open spec fn cells(self) -> Seq<Cell> {
        self.cells_before(self.n())
    }

    /// The texts are as long as the fragments say.
    pub open spec fn sized(self) -> bool {
        &&& vis_before(self.pieces, self.n()) == self.visible.len()
        &&& del_before(self.pieces, self.n()) == self.deleted.len()
    }

    /// Fragment `i` has text, and starts with the start of a character.
    pub open spec fn fragment_ok(self, i: int) -> bool {
        &&& self.pieces[i].len > 0
        &&& !is_continuation_byte(self.text(i)[0])
    }

    /// The texts are as long as the fragments say, and are texts that can be
    /// cut between fragments.
    pub open spec fn wf(self) -> bool {
        &&& self.sized()
        &&& is_text(self.visible)
        &&& is_text(self.deleted)
        &&& self.visible.len() + self.deleted.len() < usize::MAX
        &&& forall|i: int| 0 <= i < self.n() ==> #[trigger] self.fragment_ok(i)
    }

    /// The document with one more fragment at the end.
    pub open spec fn with(self, p: Piece, text: Seq<u8>) -> Doc {
        Doc {
            pieces: self.pieces.push(p),
            visible: if p.visible {
                self.visible + text
            } else {
                self.visible
            },
            deleted: if p.visible {
                self.deleted
            } else {
                self.deleted + text
            },
        }
    }

    /// The fragments from `a` to `b`, with their text.
    pub open spec fn slice(self, a: int, b: int) -> Doc {
        Doc {
            pieces: self.pieces.subrange(a, b),
            visible: self.visible.subrange(
                vis_before(self.pieces, a),
                vis_before(self.pieces, b),
            ),
            deleted: self.deleted.subrange(
                del_before(self.pieces, a),
                del_before(self.pieces, b),
            ),
        }
    }

    /// Two documents in a row.
    pub open spec fn plus(self, other: Doc) -> Doc {
        Doc {
            pieces: self.pieces + other.pieces,
            visible: self.visible + other.visible,
            deleted: self.deleted + other.deleted,
        }
    }
}

pub proof fn lemma_before_grows(pieces: Seq<Piece>, i: int, j: int)
    requires
        0 <= i <= j,
    ensures
        0 <= vis_before(pieces, i) <= vis_before(pieces, j),
        0 <= del_before(pieces, i) <= del_before(pieces, j),
    decreases j,
{
    if i < j {
        lemma_before_grows(pieces, i, j - 1);
    } else if i > 0 {
        lemma_before_grows(pieces, i - 1, j - 1);
    }
}

pub proof fn lemma_seen_before_grows(pieces: Seq<Piece>, v: Version, i: int, j: int)
    requires
        0 <= i <= j,
    ensures
        0 <= seen_before(pieces, v, i) <= seen_before(pieces, v, j),
    decreases j,
{
    if i < j {
        lemma_seen_before_grows(pieces, v, i, j - 1);
    } else if i > 0 {
        lemma_seen_before_grows(pieces, v, i - 1, j - 1);
    }
}

/// What the first fragments have does not depend on the later ones.
pub proof fn lemma_before_prefix(a: Seq<Piece>, b: Seq<Piece>, i: int)
    requires
        0 <= i <= a.len(),
        i <= b.len(),
        forall|j: int| 0 <= j < i ==> a[j] == b[j],
    ensures
        vis_before(a, i) == vis_before(b, i),
        del_before(a, i) == del_before(b, i),
    decreases i,
{
    if i > 0 {
        lemma_before_prefix(a, b, i - 1);
    }
}

pub proof fn lemma_before_concat(a: Seq<Piece>, b: Seq<Piece>, i: int)
    requires
        0 <= i <= b.len(),
    ensures
        vis_before(a + b, a.len() + i) == vis_before(a, a.len() as int) + vis_before(b, i),
        del_before(a + b, a.len() + i) == del_before(a, a.len() as int) + del_before(b, i),
    decreases i,
{
    if i == 0 {
        lemma_before_prefix(a + b, a, a.len() as int);
    } else {
        lemma_before_concat(a, b, i - 1);
        assert((a + b)[a.len() + i - 1] == b[i - 1]);
    }
}

pub proof fn lemma_before_subrange(p: Seq<Piece>, a: int, i: int, b: int)
    requires
        0 <= a <= i <= b <= p.len(),
    ensures
        vis_before(p.subrange(a, b), i - a) == vis_before(p, i) - vis_before(p, a),
        del_before(p.subrange(a, b), i - a) == del_before(p, i) - del_before(p, a),
    decreases i - a,
{
    if a < i {
        lemma_before_subrange(p, a, i - 1, b);
        assert(p.subrange(a, b)[i - 1 - a] == p[i - 1]);
    }
}

/// The text of a fragment lies within the text of its kind.
pub proof fn lemma_text(d: Doc, i: int)
    requires
        d.sized(),
        0 <= i < d.n(),
    ensures
        d.text(i).len() == d.pieces[i].len,
        0 <= vis_before(d.pieces, i) <= vis_before(d.pieces, i + 1) <= d.visible.len(),
        0 <= del_before(d.pieces, i) <= del_before(d.pieces, i + 1) <= d.deleted.len(),
        d.len_before(i + 1) == d.len_before(i) + d.pieces[i].len,
{
    lemma_before_grows(d.pieces, i, i + 1);
    lemma_before_grows(d.pieces, i + 1, d.n());
}

pub proof fn lemma_cells_len(d: Doc, i: int)
    requires
        d.sized(),
        0 <= i <= d.n(),
    ensures
        d.cells_before(i).len() == d.len_before(i),
    decreases i,
{
    if i > 0 {
        lemma_cells_len(d, i - 1);
        lemma_text(d, i - 1);
    }
}

pub proof fn lemma_len_before_grows(d: Doc, i: int, j: int)
    requires
        0 <= i <= j,
    ensures
        0 <= d.len_before(i) <= d.len_before(j),
{
    lemma_before_grows(d.pieces, i, j);
}

/// The cells of the first fragments are the first cells.
pub proof fn lemma_cells_prefix(d: Doc, i: int, j: int)
    requires
        d.sized(),
        0 <= i <= j <= d.n(),
    ensures
        d.cells_before(j).len() == d.len_before(j),
        d.len_before(i) <= d.len_before(j),
        d.cells_before(j).take(d.len_before(i)) == d.cells_before(i),
    decreases j,
{
    lemma_cells_len(d, i);
    lemma_cells_len(d, j);
    lemma_len_before_grows(d, i, j);
    if i < j {
        lemma_cells_prefix(d, i, j - 1);
        lemma_len_before_grows(d, i, j - 1);
        lemma_cells_len(d, j - 1);
        assert(d.cells_before(j).take(d.len_before(i)) =~= d.cells_before(j - 1).take(
            d.len_before(i),
        ));
    } else {
        assert(d.cells_before(j).take(d.len_before(i)) =~= d.cells_before(i));
    }
}

/// The cell that stands `t` bytes into fragment `i`.
pub proof fn lemma_cell(d: Doc, i: int, t: int)
    requires
        d.sized(),
        0 <= i < d.n(),
        0 <= t < d.pieces[i].len,
    ensures
        0 <= d.len_before(i) + t < d.cells().len(),
        d.cells()[d.len_before(i) + t] == cell_of(d.pieces[i], d.text(i)[t], t == 0),
{
    lemma_cells_len(d, i);
    lemma_cells_len(d, d.n());
    lemma_text(d, i);
    lemma_cells_prefix(d, i + 1, d.n());
    lemma_len_before_grows(d, 0, i);
    let c = d.cells_before(i + 1);
    assert(c[d.len_before(i) + t] == run_cells(d.pieces[i], d.text(i))[t]);
    assert(d.cells().take(d.len_before(i + 1))[d.len_before(i) + t] == d.cells()[d.len_before(i)
        + t]);
}

/// The visible cells before a place in fragment `i`.
pub proof fn lemma_visible_rank(d: Doc, i: int, t: int)
    requires
        d.sized(),
        0 <= i <= d.n(),
        0 <= t,
        i < d.n() ==> t <= d.pieces[i].len,
        i == d.n() ==> t == 0,
    ensures
        visible_rank(d.cells(), d.len_before(i) + t) == vis_before(d.pieces, i) + if i < d.n()
            && d.pieces[i].visible {
            t
        } else {
            0
        },
    decreases i, t,
{
    lemma_len_before_grows(d, 0, i);
    if t > 0 {
        lemma_visible_rank(d, i, t - 1);
        lemma_cell(d, i, t - 1);
    } else if i > 0 {
        lemma_visible_rank(d, i - 1, d.pieces[i - 1].len as int);
        lemma_text(d, i - 1);
    }
}

/// The cells before a place in fragment `i` whose insertion `v` had seen.
pub proof fn lemma_seen_rank(d: Doc, v: Version, i: int, t: int)
    requires
        d.sized(),
        0 <= i <= d.n(),
        0 <= t,
        i < d.n() ==> t <= d.pieces[i].len,
        i == d.n() ==> t == 0,
    ensures
        seen_rank(d.cells(), v, d.len_before(i) + t) == seen_before(d.pieces, v, i) + if i < d.n()
            && observes(v, local_of(d.pieces[i].timestamp)) {
            t
        } else {
            0
        },
    decreases i, t,
{
    lemma_len_before_grows(d, 0, i);
    if t > 0 {
        lemma_seen_rank(d, v, i, t - 1);
        lemma_cell(d, i, t - 1);
    } else if i > 0 {
        lemma_seen_rank(d, v, i - 1, d.pieces[i - 1].len as int);
        lemma_text(d, i - 1);
    }
}

/// The cells of the first fragments do not depend on the later ones.
pub proof fn lemma_cells_of_extension(a: Doc, b: Doc, i: int)
    requires
        a.sized(),
        0 <= i <= a.n() <= b.n(),
        forall|j: int| 0 <= j < i ==> a.pieces[j] == b.pieces[j],
        a.visible.len() <= b.visible.len(),
        a.deleted.len() <= b.deleted.len(),
        b.visible.take(a.visible.len() as int) == a.visible,
        b.deleted.take(a.deleted.len() as int) == a.deleted,
    ensures
        b.cells_before(i) == a.cells_before(i),
    decreases i,
{
    if i > 0 {
        lemma_cells_of_extension(a, b, i - 1);
        lemma_before_prefix(a.pieces, b.pieces, i - 1);
        lemma_text(a, i - 1);
        assert(a.text(i - 1) =~= b.text(i - 1)) by {
            let v0 = vis_before(a.pieces, i - 1);
            let d0 = del_before(a.pieces, i - 1);
            let len = a.pieces[i - 1].len;
            if a.pieces[i - 1].visible {
                assert(b.visible.take(a.visible.len() as int).subrange(v0, v0 + len)
                    =~= b.visible.subrange(v0, v0 + len));
            } else {
                assert(b.deleted.take(a.deleted.len() as int).subrange(d0, d0 + len)
                    =~= b.deleted.subrange(d0, d0 + len));
            }
        }
    }
}

/// One more fragment adds its cells at the end.
pub proof fn lemma_cells_with(d: Doc, p: Piece, text: Seq<u8>)
    requires
        d.sized(),
        text.len() == p.len,
    ensures
        d.with(p, text).sized(),
        d.with(p, text).cells() == d.cells() + run_cells(p, text),
        d.with(p, text).text(d.n()) == text,
{
    let e = d.with(p, text);
    assert(e.visible.take(d.visible.len() as int) =~= d.visible);
    assert(e.deleted.take(d.deleted.len() as int) =~= d.deleted);
    lemma_cells_of_extension(d, e, d.n());
    lemma_before_prefix(d.pieces, e.pieces, d.n());
    assert(e.pieces[d.n()] == p);
    assert(e.text(d.n()) =~= text);
}

pub proof fn lemma_with_wf(d: Doc, p: Piece, text: Seq<u8>)
    requires
        d.wf(),
        text.len() == p.len,
        p.len > 0,
        is_text(text),
        d.visible.len() + d.deleted.len() + text.len() < usize::MAX,
    ensures
        d.with(p, text).wf(),
{
    let e = d.with(p, text);
    lemma_cells_with(d, p, text);
    valid_utf8_concat(d.visible, text);
    valid_utf8_concat(d.deleted, text);
    is_char_boundary_start_end_of_seq(text);
    is_char_boundary_iff_not_is_continuation_byte(text, 0);
    assert forall|i: int| 0 <= i < e.n() implies #[trigger] e.fragment_ok(i) by {
        if i < d.n() {
            assert(d.fragment_ok(i));
            lemma_before_prefix(d.pieces, e.pieces, i);
            lemma_text(d, i);
            assert(e.text(i) =~= d.text(i));
        }
    }
}

/// The cells of a run of fragments.
pub proof fn lemma_cells_slice(d: Doc, a: int, b: int)
    requires
        d.sized(),
        0 <= a <= b <= d.n(),
    ensures
        d.slice(a, b).sized(),
        0 <= d.len_before(a) <= d.len_before(b) <= d.cells().len(),
        d.slice(a, b).cells() == d.cells().subrange(d.len_before(a), d.len_before(b)),
{
    lemma_cells_len(d, d.n());
    lemma_len_before_grows(d, a, b);
    lemma_len_before_grows(d, b, d.n());
    lemma_before_grows(d.pieces, a, b);
    lemma_before_grows(d.pieces, b, d.n());
    lemma_before_subrange(d.pieces, a, b, b);
    let s = d.slice(a, b);
    lemma_cells_slice_prefix(d, a, b, b);
    assert(s.cells_before(b - a) == s.cells());
}

proof fn lemma_cells_slice_prefix(d: Doc, a: int, i: int, b: int)
    requires
        d.sized(),
        0 <= a <= i <= b <= d.n(),
        d.slice(a, b).sized(),
        0 <= d.len_before(a) <= d.len_before(i) <= d.cells().len(),
    ensures
        d.slice(a, b).cells_before(i - a) == d.cells().subrange(d.len_before(a), d.len_before(i)),
    decreases i - a,
{
    let s = d.slice(a, b);
    if a < i {
        lemma_len_before_grows(d, a, i - 1);
        lemma_len_before_grows(d, i - 1, i);
        lemma_cells_slice_prefix(d, a, i - 1, b);
        lemma_before_subrange(d.pieces, a, i - 1, b);
        lemma_text(d, i - 1);
        lemma_before_grows(d.pieces, a, i - 1);
        lemma_before_grows(d.pieces, i, b);
        lemma_before_grows(d.pieces, b, d.n());
        assert(s.pieces[i - 1 - a] == d.pieces[i - 1]);
        assert(s.text(i - 1 - a) =~= d.text(i - 1));
        assert forall|t: int| 0 <= t < d.pieces[i - 1].len implies d.cells()[d.len_before(i - 1)
            + t] == #[trigger] run_cells(d.pieces[i - 1], d.text(i - 1))[t] by {
            lemma_cell(d, i - 1, t);
        }
        assert(s.cells_before(i - a) =~= d.cells().subrange(d.len_before(a), d.len_before(i)));
    } else {
        assert(s.cells_before(0) =~= d.cells().subrange(d.len_before(a), d.len_before(i)));
    }
}

/// The cells of two documents in a row.
pub proof fn lemma_cells_plus(a: Doc, b: Doc)
    requires
        a.sized(),
        b.sized(),
    ensures
        a.plus(b).sized(),
        a.plus(b).cells() == a.cells() + b.cells(),
        forall|i: int| 0 <= i < a.n() ==> #[trigger] a.plus(b).text(i) == a.text(i),
        forall|i: int| 0 <= i < b.n() ==> #[trigger] a.plus(b).text(a.n() + i) == b.text(i),
{
    let c = a.plus(b);
    lemma_before_concat(a.pieces, b.pieces, b.n());
    lemma_cells_plus_prefix(a, b, b.n());
    assert forall|i: int| 0 <= i < a.n() implies #[trigger] a.plus(b).text(i) == a.text(i) by {
        lemma_before_prefix(c.pieces, a.pieces, i);
        lemma_text(a, i);
        assert(c.text(i) =~= a.text(i));
    }
    assert forall|i: int| 0 <= i < b.n() implies #[trigger] a.plus(b).text(a.n() + i) == b.text(
        i,
    ) by {
        lemma_before_concat(a.pieces, b.pieces, i);
        lemma_text(b, i);
        assert(c.pieces[a.n() + i] == b.pieces[i]);
        assert(c.text(a.n() + i) =~= b.text(i));
    }
}

proof fn lemma_cells_plus_prefix(a: Doc, b: Doc, i: int)
    requires
        a.sized(),
        b.sized(),
        0 <= i <= b.n(),
    ensures
        a.plus(b).cells_before(a.n() + i) == a.cells() + b.cells_before(i),
    decreases i,
{
    let c = a.plus(b);
    if i == 0 {
        assert(c.visible.take(a.visible.len() as int) =~= a.visible);
        assert(c.deleted.take(a.deleted.len() as int) =~= a.deleted);
        lemma_cells_of_extension(a, c, a.n());
        assert(a.cells() + b.cells_before(0) =~= a.cells());
    } else {
        lemma_cells_plus_prefix(a, b, i - 1);
        lemma_before_concat(a.pieces, b.pieces, i - 1);
        lemma_text(b, i - 1);
        assert(c.pieces[a.n() + i - 1] == b.pieces[i - 1]);
        assert(c.text(a.n() + i - 1) =~= b.text(i - 1));
        assert(c.cells_before(a.n() + i) =~= a.cells() + b.cells_before(i));
    }
}

/// The start of a fragment is a character boundary of both texts.
pub proof fn lemma_fragment_boundary(d: Doc, i: int)
    requires
        d.wf(),
        0 <= i <= d.n(),
    ensures
        0 <= vis_before(d.pieces, i) <= d.visible.len(),
        0 <= del_before(d.pieces, i) <= d.deleted.len(),
        is_char_boundary(d.visible, vis_before(d.pieces, i)),
        is_char_boundary(d.deleted, del_before(d.pieces, i)),
    decreases d.n() - i,
{
    lemma_before_grows(d.pieces, i, d.n());
    if i == d.n() {
        is_char_boundary_start_end_of_seq(d.visible);
        is_char_boundary_start_end_of_seq(d.deleted);
    } else {
        lemma_fragment_boundary(d, i + 1);
        lemma_text(d, i);
        assert(d.fragment_ok(i));
        if d.pieces[i].visible {
            assert(d.text(i)[0] == d.visible[vis_before(d.pieces, i)]);
            is_char_boundary_iff_not_is_continuation_byte(d.visible, vis_before(d.pieces, i));
        } else {
            assert(d.text(i)[0] == d.deleted[del_before(d.pieces, i)]);
            is_char_boundary_iff_not_is_continuation_byte(d.deleted, del_before(d.pieces, i));
        }
    }
}

pub proof fn lemma_slice_wf(d: Doc, a: int, b: int)
    requires
        d.wf(),
        0 <= a <= b <= d.n(),
    ensures
        d.slice(a, b).wf(),
{
    lemma_cells_slice(d, a, b);
    lemma_fragment_boundary(d, a);
    lemma_fragment_boundary(d, b);
    lemma_before_grows(d.pieces, a, b);
    let s = d.slice(a, b);
    crate::rope::lemma_slice_is_text(
        d.visible,
        vis_before(d.pieces, a),
        vis_before(d.pieces, b),
    );
    crate::rope::lemma_slice_is_text(
        d.deleted,
        del_before(d.pieces, a),
        del_before(d.pieces, b),
    );
    assert forall|i: int| 0 <= i < s.n() implies #[trigger] s.fragment_ok(i) by {
        assert(d.fragment_ok(a + i));
        lemma_before_subrange(d.pieces, a, a + i, b);
        lemma_text(d, a + i);
        lemma_before_grows(d.pieces, a, a + i);
        lemma_before_grows(d.pieces, a + i + 1, b);
        assert(s.text(i) =~= d.text(a + i));
    }
}

pub proof fn lemma_plus_wf(a: Doc, b: Doc)
    requires
        a.wf(),
        b.wf(),
        a.visible.len() + a.deleted.len() + b.visible.len() + b.deleted.len() < usize::MAX,
    ensures
        a.plus(b).wf(),
{
    lemma_cells_plus(a, b);
    valid_utf8_concat(a.visible, b.visible);
    valid_utf8_concat(a.deleted, b.deleted);
    let c = a.plus(b);
    assert forall|i: int| 0 <= i < c.n() implies #[trigger] c.fragment_ok(i) by {
        if i < a.n() {
            assert(a.fragment_ok(i));
            assert(c.text(i) == a.text(i));
        } else {
            assert(b.fragment_ok(i - a.n()));
            assert(c.text(a.n() + (i - a.n())) == b.text(i - a.n()));
        }
    }
}

pub proof fn lemma_bytes_where_concat(a: Seq<Cell>, b: Seq<Cell>, visible: bool)
    ensures
        bytes_where(a + b, visible) == bytes_where(a, visible) + bytes_where(b, visible),
    decreases b.len(),
{
    if b.len() == 0 {
        assert(a + b =~= a);
        assert(bytes_where(a, visible) + bytes_where(b, visible) =~= bytes_where(a, visible));
    } else {
        assert((a + b).drop_last() =~= a + b.drop_last());
        lemma_bytes_where_concat(a, b.drop_last(), visible);
        assert(bytes_where(a + b, visible) =~= bytes_where(a, visible) + bytes_where(b, visible));
    }
}

proof fn lemma_bytes_of_run(p: Piece, text: Seq<u8>)
    ensures
        bytes_where(run_cells(p, text), p.visible) == text,
        bytes_where(run_cells(p, text), !p.visible) == Seq::<u8>::empty(),
    decreases text.len(),
{
    let c = run_cells(p, text);
    if text.len() > 0 {
        lemma_bytes_of_run(p, text.drop_last());
        assert(c.drop_last() =~= run_cells(p, text.drop_last()));
        assert(text =~= text.drop_last().push(text.last()));
    } else {
        assert(bytes_where(c, p.visible) =~= text);
    }
}

/// The text that a document shows is its visible text, and what it does not
/// show is its deleted text.
pub proof fn lemma_texts(d: Doc, i: int)
    requires
        d.sized(),
        0 <= i <= d.n(),
    ensures
        0 <= vis_before(d.pieces, i) <= d.visible.len(),
        0 <= del_before(d.pieces, i) <= d.deleted.len(),
        visible_text(d.cells_before(i)) == d.visible.take(vis_before(d.pieces, i)),
        deleted_text(d.cells_before(i)) == d.deleted.take(del_before(d.pieces, i)),
    decreases i,
{
    lemma_before_grows(d.pieces, 0, i);
    lemma_before_grows(d.pieces, i, d.n());
    if i == 0 {
        assert(visible_text(d.cells_before(i)) =~= d.visible.take(0));
        assert(deleted_text(d.cells_before(i)) =~= d.deleted.take(0));
    } else {
        lemma_texts(d, i - 1);
        lemma_text(d, i - 1);
        let c = d.cells_before(i - 1);
        let r = run_cells(d.pieces[i - 1], d.text(i - 1));
        lemma_bytes_where_concat(c, r, true);
        lemma_bytes_where_concat(c, r, false);
        lemma_bytes_of_run(d.pieces[i - 1], d.text(i - 1));
        assert(visible_text(d.cells_before(i)) =~= d.visible.take(vis_before(d.pieces, i)));
        assert(deleted_text(d.cells_before(i)) =~= d.deleted.take(del_before(d.pieces, i)));
    }
}

/// A stored document shows its visible text, and holds its deleted text.
pub proof fn law_stored_texts(d: Doc)
    requires
        d.sized(),
    ensures
        visible_text(d.cells()) == d.visible,
        deleted_text(d.cells()) == d.deleted,
{
    lemma_texts(d, d.n());
    assert(d.visible.take(d.visible.len() as int) =~= d.visible);
    assert(d.deleted.take(d.deleted.len() as int) =~= d.deleted);
}

} // verus!
