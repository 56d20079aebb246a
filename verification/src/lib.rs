//! Per-segment read and write engine of an inverted index: posting-list
//! encoding, term dictionary payloads, posting iterators and their
//! intersection, and the in-memory segment writer.

pub mod bytes;
pub mod codec;
pub mod postings;
pub mod intersection;
pub mod term;
pub mod dictionary;
pub mod schema;
pub mod block_store;
pub mod postings_writer;
pub mod segment_writer;
pub mod reader;
