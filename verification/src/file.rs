use vstd::prelude::*;

verus! {

/// A named file held in memory: what `put` and `get` will exchange once
/// file content storage is implemented on top of the block schedule.
pub struct File {
    /// The file's name.
    pub name: String,
    /// The file's contents.
    pub data: Vec<u8>,
}

} // verus!
