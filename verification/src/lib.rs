//! Read-only decoder and navigator for a B-tree database file made of pages
//! of 4096 bytes.
//!
//! A [`database::Database`] holds the bytes of a whole file. Its pages are
//! decoded on demand into a [`page::Page`], the entries of a page into an
//! [`entry::Entry`]; both borrow from the bytes of the file. On top of the
//! decoding stand the point lookup, [`database::Database::get`], and the
//! ordered walk over all key/value pairs, [`database::Database::walk`] and
//! [`database::Database::scan`]. Nothing here writes, and no input makes a
//! function of this library panic: what cannot be decoded or followed comes
//! back as an [`error::Error`].
//!
//! Every function states what it returns over the bytes at hand:
//!
//! - [`bytes`]: little-endian integers and the order of keys;
//! - [`entry`] and [`page`]: the layout of entries, headers and the offset
//!   table;
//! - [`database`]: pages by number, the root, the lookup;
//! - [`walk`]: the cursor of the walk and the sequence that it yields;
//! - [`tree`]: what a well-formed tree is, and that lookup and walk agree on
//!   it;
//! - [`cutoff`]: that lookup and walk are cut off only where they would never
//!   end, which rests on [`steps`].

pub mod bytes;
pub mod cutoff;
pub mod database;
pub mod entry;
pub mod error;
pub mod page;
pub mod steps;
pub mod tree;
pub mod walk;
