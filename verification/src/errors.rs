//! What can be wrong with a stored tree.

use vstd::prelude::*;

verus! {

/// Why a cursor cannot go on.
#[derive(Clone, Copy, Debug, PartialEq, Eq, Structural)]
pub enum StorageError {
    /// A page, a cell of it or its overflow chain does not have the page format.
    CorruptPage,
    /// The payload of a cell is no record.
    CorruptRecord,
    /// The tree is deeper than [`crate::cursor::BTCURSOR_MAX_DEPTH`] allows.
    TreeTooDeep,
}

} // verus!
