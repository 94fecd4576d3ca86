//! Run-length text encoding of a binary cell grid.
//!
//! Alive cells are written `b`, dead cells `o`, rows are separated by `$`,
//! runs carry a decimal length prefix when longer than one, fully alive rows
//! collapse to nothing, runs of separators are compressed the same way, and
//! the whole text ends with `!`.
pub mod grid;
pub mod model;
pub mod text;
pub mod decode;
pub mod encoder;
pub mod laws;
pub mod lemmas;
