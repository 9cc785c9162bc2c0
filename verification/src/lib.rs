//! Fixed-size binary training records for game positions.
//!
//! The crate holds the logic of a record-conversion pipeline: the
//! byte-exact codec of one concrete record type — an Ataxx board
//! snapshot with bit-packed occupancy planes, canonicalized to the
//! side to move, convertible losslessly to and from a textual
//! notation — together with the pure planning of a streaming loader
//! (how a file of back-to-back records is cut into batches) and of a
//! parallel converter (how a batch is cut into per-worker chunks,
//! mapped, and rejoined in order).  File handles, sockets and worker
//! threads stay with the caller; everything here is values in, values
//! out, with the contracts proved.

pub mod ataxx;
pub mod convert;
pub mod format;
pub mod laws;
pub mod loader;
pub mod text;
