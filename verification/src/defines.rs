use vstd::prelude::*;

verus! {

/// MSN is short for message sequence number.
/// A MSN represents a sequence number of a message: it records the order
/// of the mutations to the key-value store. Sequence numbers are assigned
/// by an external monotonic source and must fit in 56 bits so that they
/// survive tag packing unchanged.
pub type MSN = u64;

/// Errors surfaced by the key codec and the table.
#[derive(Debug, Clone, Copy, PartialEq, Eq, Structural)]
pub enum KvError {
    /// The bytes handed to a decoder are not a well-formed memtable key:
    /// the varint length prefix is truncated or inconsistent with the
    /// buffer's actual size.
    MalformedKey,
    /// The operation is declared but intentionally not implemented yet;
    /// distinct from bad input so callers can branch on "unsupported".
    Unimplemented,
}

} // verus!
