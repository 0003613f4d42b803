//! External-memory sorting of line-oriented text files.
//!
//! The verified core covers the key model and its total order, record
//! construction from a line, the in-memory sort of a chunk, the k-way merge
//! of sorted runs, the discovery of chunk boundaries and the scheduling of
//! sorted runs inside a worker.

pub mod field_type;
pub mod order;
pub mod field;
pub mod key;
pub mod line_record;
pub mod sorting;
pub mod merge;
pub mod chunk_iterator;
pub mod config;
pub mod sorted_chunk_file;
pub mod sort_command;
pub mod pipeline;
pub mod guarantees;
pub mod order_check;
