use vstd::prelude::*;

verus! {

/// The failures the store can report instead of aborting.
///
/// Corrupt identifiers, missing blocks and malformed encodings are fatal
/// for the operation that meets them; a path that does not resolve is an
/// ordinary outcome of `list`.
#[derive(Clone, Copy, PartialEq, Eq, Structural, Debug)]
pub enum VaultError {
    /// A block id failed its validity check on first inspection.
    CorruptId,
    /// The provider holds no block under the requested id.
    MissingBlock,
    /// A block's bytes do not decode to the structured schema.
    MalformedBlock,
    /// A node had a different variant than the operation expects.
    UnexpectedNode,
    /// The entry or field uses a shard id, which this version does not resolve.
    ShardUnsupported,
    /// A path component does not resolve to an entry.
    PathNotFound,
    /// An info block may hold at most `u16::MAX` inline nodes.
    NodeLimit,
    /// The encoded form would exceed the largest permitted block size.
    BlockTooLarge,
    /// A value lies outside the range its type permits.
    InvalidValue,
    /// The operation is reserved for a future version.
    Unimplemented,
}

} // verus!
