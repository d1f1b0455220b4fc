//! An append-only metadata index and a content-addressed blob store for a
//! personal todo tracker, kept as an in-memory image of the data directory.
//!
//! Every mutation of the image returns the file operations that bring the
//! directory on disk to the same state, so the caller only has to carry them
//! out. Reading resolves the current version of every entry by keeping, for
//! each identity, the greatest row under a fixed total order.

pub mod entry;
pub mod error;
pub mod identity;
pub mod laws;
pub mod order;
pub mod record;
pub mod seqs;
pub mod stamp;
pub mod store;
pub mod store_csv;
pub mod store_csv2;
pub mod store_sqlite;
pub mod text;
