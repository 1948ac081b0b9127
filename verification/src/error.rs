//! The ways in which decoding or navigating a database can fail.

use vstd::prelude::*;

verus! {

/// A failure to decode a page or an entry, or to follow the tree.
#[derive(Debug, Clone, Copy, PartialEq, Eq, Structural)]
pub enum Error {
    /// The bytes at hand are not whole pages: a page is not exactly
    /// `PAGE_SIZE` bytes long, or a file is empty or ends inside a page.
    TruncatedPage,
    /// A page that is not a metadata page carries a page type other than
    /// internal, leaf or metadata.
    UnknownPageType,
    /// The bytes of an entry are too few for its kind, its type byte is not
    /// the expected one, or its length field does not fit its bytes.
    InvalidEntry,
    /// A slot of the offset table lies outside the page, or the extent that
    /// it gives for an entry does.
    OffsetOutOfRange,
    /// No page of the file is a metadata page, so the tree has no root.
    NoRootPage,
    /// A page number that was followed lies outside the file, a routing page
    /// offers no child to descend into, or following the page numbers would
    /// never come to an end.
    TraversalError,
}

} // verus!
