//! A log-structured key-value engine in the Bitcask style, without the I/O.
//!
//! Every mutation is one self-delimiting record appended to the active
//! segment of a directory; an in-memory key directory maps each live key to
//! the place of its latest `Set` record. The engine here decides and
//! computes: it encodes and decodes records, replays segments into the key
//! directory, keeps the write position and the dead-byte counter, and plans
//! compactions. The caller owns the files and carries each step out.

pub mod codec;
pub mod engine;
pub mod error;
pub mod keydir;
pub mod laws;
pub mod names;
pub mod pointer;
pub mod replay;
pub mod runs;
pub mod store;
pub mod thread_pool;

pub use crate::codec::{decode, encode, Decoded, KvsCommand};
pub use crate::engine::KvsEngine;
pub use crate::error::{key_not_found, ErrorKind, KvsError, MessageError, Result};
pub use crate::keydir::KeyDir;
pub use crate::names::{create_path, segment_generation, sorted_file_idx_list};
pub use crate::pointer::LogPointer;
pub use crate::replay::build_index_from_reader;
pub use crate::store::{Append, CompactionPlan, KvStore, Segment, COMPACTION_THRESHOLD};
pub use crate::thread_pool::ThreadPool;
