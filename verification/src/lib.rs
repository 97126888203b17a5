//! A content-addressed, encrypted block store exposing a hierarchical
//! namespace of directories on top of immutable, variable-sized blocks.

mod block;
mod codec;
mod err;
mod file;
mod ids;
mod info;
mod path;
mod provider;
mod translate;
mod vault;

pub use block::{Block, EncryptedBlock};
pub use codec::{Entry, Node, NodeKind, UnionId};
pub use err::VaultError;
pub use ids::{
    BlockId, BlockIdIndex, BlockKind, BlockOffset, BlockSize, FileOffset, FileSize, ShardId,
    MAX_BLOCK_SIZE, MAX_FILE_SIZE, MIN_BLOCK_SIZE,
};
pub use file::File;
pub use info::InfoBlock;
pub use path::VaultPath;
pub use provider::{BlockWrite, Provider};
pub use vault::{CommitPlan, Vault};
pub use translate::{
    translate_file_offset, PREFIX_BLOCK_COUNT, REPEATING_BLOCKS_START_OFFSET,
};
