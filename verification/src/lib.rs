//! In-memory write path of a log-structured-merge key-value engine:
//! the internal-key codec (varint length framing, tag packing), the
//! pluggable byte comparator, and the ordered table that indexes encoded
//! keys and resolves multi-version lookups.

pub mod cmp;
pub mod coding;
pub mod defines;
pub mod key_types;
pub mod memtable;
