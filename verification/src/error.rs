//! What can go wrong.

use vstd::prelude::*;

use crate::operation::SelectionSetId;

verus! {

#[derive(Clone, Copy, Debug, PartialEq, Eq, Structural)]
pub enum Error {
    /// An offset lies past the end of the text.
    OffsetOutOfBounds,
    /// There is no such set of selections.
    InvalidSelectionSet(SelectionSetId),
    /// The buffer has no file to be saved to.
    NoFile,
    /// An operation names places that its version did not have, or where its text
    /// cannot go, or there is no room for it.
    InvalidOperation,
    /// A message holds no operation.
    MissingOperation,
    /// A selection in a message has no start.
    MissingSelectionStart,
    /// A selection in a message has no end.
    MissingSelectionEnd,
    /// The bias of an anchor in a message is neither left nor right.
    InvalidAnchorBias(i32),
}

} // verus!
