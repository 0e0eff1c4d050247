//! An indexed record store for a line-oriented task list.
//!
//! Records carry a 1-based index, a task text and a completion flag. The
//! store keeps the indexes contiguous (exactly 1..=N, in file order): the
//! checker in [`integrity`] validates that invariant on load, [`append`]
//! extends the store without breaking it, and the engine in [`rewrite`]
//! re-establishes it by renumbering while removing or re-flagging records.
//! [`codec`] turns records into the on-disk line format and back.

pub mod append;
pub mod codec;
pub mod integrity;
pub mod laws;
pub mod record;
pub mod rewrite;
