//! A reference-counted shared pointer over an arena of blocks, and a lazy
//! string splitter.

pub mod rc;

pub use rc::{Block, Rc, RcHeap};
pub mod strsplit;

pub use strsplit::{Delimiter, StrSplit};
