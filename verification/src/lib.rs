//! PortableNote: a portable, directory-based knowledge vault format.
//!
//! The library holds the format's logic: block and document aggregates,
//! markdown content analysis, the block file format, vault validation,
//! the vault checksum, the commit journal and the use cases that turn
//! commands into ordered vault writes.

pub mod block_file;
pub mod block_store;
pub mod blocks;
pub mod checksum;
pub mod commands;
pub mod commit;
pub mod content;
pub mod document_store;
pub mod documents;
pub mod edges;
pub mod error;
pub mod events;
pub mod format;
pub mod gate;
pub mod invariants;
pub mod journal;
pub mod ids;
pub mod ports;
pub mod queries;
pub mod readback;
pub mod renaming;
pub mod results;
pub mod runner;
pub mod text;
pub mod time;
pub mod types;
pub mod use_cases;
