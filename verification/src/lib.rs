//! Log sequence numbers and ranges of them, as used to address the entries of
//! a document's journals.

pub mod lsn;

pub use lsn::{Lsn, LsnRange};
