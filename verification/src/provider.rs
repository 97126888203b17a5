use vstd::prelude::*;

verus! {

use vstd::pervasive::VecAdditionalExecFns;
use vstd::slice::slice_to_vec;
use crate::block::{Block, EncryptedBlock};
use crate::err::VaultError;
use crate::ids::BlockId;

// The provider is the content-addressed store: a map from block id to
// block, held in memory. Reading and writing the files that mirror it on
// disk is the surrounding program's part; a `BlockWrite` tells it what to
// persist.

/// One pending write of a block file: the id names the file, the bytes
/// are the encrypted contents to store.
pub struct BlockWrite {
    /// The id of the block; its serialized form names the file.
    pub id: BlockId,
    /// The encrypted bytes to store.
    pub data: Vec<u8>,
}

/// No two stored entries share an id.
pub open spec fn keys_unique(entries: Seq<(BlockId, Block)>) -> bool {
    forall|i: int, j: int| 0 <= i < j < entries.len()
        ==> (#[trigger] entries[i]).0@ != (#[trigger] entries[j]).0@
}

/// The map an entry list denotes: later entries override earlier ones.
pub closed spec fn store_map(entries: Seq<(BlockId, Block)>) -> Map<Seq<u8>, Seq<u8>>
    decreases entries.len(),
{
    if entries.len() == 0 {
        Map::<Seq<u8>, Seq<u8>>::empty()
    } else {
        store_map(entries.drop_last()).insert(entries.last().0@, entries.last().1@)
    }
}

proof fn lemma_store_map_domain(entries: Seq<(BlockId, Block)>, k: Seq<u8>)
    ensures
        store_map(entries).contains_key(k) <==> exists|i: int|
            0 <= i < entries.len() && (#[trigger] entries[i]).0@ == k,
    decreases entries.len(),
{
    if entries.len() > 0 {
        lemma_store_map_domain(entries.drop_last(), k);
        let d = entries.drop_last();
        if store_map(entries).contains_key(k) {
            if entries.last().0@ != k {
                let i = choose|i: int| 0 <= i < d.len() && (#[trigger] d[i]).0@ == k;
                assert(entries[i].0@ == k);
            }
        }
        if exists|i: int| 0 <= i < entries.len() && (#[trigger] entries[i]).0@ == k {
            let i = choose|i: int| 0 <= i < entries.len() && (#[trigger] entries[i]).0@ == k;
            if i < entries.len() - 1 {
                assert(d[i].0@ == k);
            }
        }
    }
}

proof fn lemma_store_map_index(entries: Seq<(BlockId, Block)>, i: int)
    requires
        keys_unique(entries),
        0 <= i < entries.len(),
    ensures
        store_map(entries).contains_key(entries[i].0@),
        store_map(entries)[entries[i].0@] == entries[i].1@,
    decreases entries.len(),
{
    if i == entries.len() - 1 {
    } else {
        let d = entries.drop_last();
        assert(keys_unique(d)) by {
            assert(forall|x: int, y: int| 0 <= x < y < d.len()
                ==> (#[trigger] d[x]).0@ != (#[trigger] d[y]).0@) by {
                assert(forall|x: int| 0 <= x < d.len() ==> #[trigger] d[x] == entries[x]);
            }
        }
        assert(d[i] == entries[i]);
        lemma_store_map_index(d, i);
        assert(entries.last().0@ != entries[i].0@);
    }
}

proof fn lemma_store_map_update(entries: Seq<(BlockId, Block)>, i: int, p: (BlockId, Block))
    requires
        keys_unique(entries),
        0 <= i < entries.len(),
        p.0@ == entries[i].0@,
    ensures
        store_map(entries.update(i, p)) =~= store_map(entries).insert(p.0@, p.1@),
    decreases entries.len(),
{
    let e2 = entries.update(i, p);
    if i == entries.len() - 1 {
        assert(e2.drop_last() =~= entries.drop_last());
        assert(e2.last() == p);
    } else {
        let d = entries.drop_last();
        assert(keys_unique(d)) by {
            assert(forall|x: int| 0 <= x < d.len() ==> #[trigger] d[x] == entries[x]);
        }
        assert(e2.drop_last() =~= d.update(i, p));
        assert(d[i] == entries[i]);
        lemma_store_map_update(d, i, p);
        assert(e2.last() == entries.last());
        assert(entries.last().0@ != p.0@);
    }
}

/// A process-wide content-addressed store of blocks keyed by `BlockId`.
pub struct Provider {
    blocks: Vec<(BlockId, Block)>,
}

impl View for Provider {
    type V = Map<Seq<u8>, Seq<u8>>;

    closed spec fn view(&self) -> Map<Seq<u8>, Seq<u8>> {
        store_map(self.blocks@)
    }
}

impl Provider {
    /// The stored entries never repeat an id.
    pub closed spec fn wf(&self) -> bool {
        keys_unique(self.blocks@)
    }

    /// An empty store.
    pub fn new() -> (r: Provider)
        ensures
            r@ == Map::<Seq<u8>, Seq<u8>>::empty(),
            r.wf(),
    {
        Provider { blocks: Vec::new() }
    }

    /// Finds the position of an id in the store.
    fn find(&self, id: &BlockId) -> (r: Option<usize>)
        requires
            self.wf(),
        ensures
            match r {
                Some(i) => {
                    &&& (i as int) < self.blocks@.len()
                    &&& self.blocks@[i as int].0@ == id@
                    &&& self@.contains_key(id@)
                    &&& self@[id@] == self.blocks@[i as int].1@
                },
                None => !self@.contains_key(id@),
            },
    {
        let mut i: usize = 0;
        while i < self.blocks.len()
            invariant
                self.wf(),
                0 <= i <= self.blocks@.len(),
                forall|k: int| 0 <= k < i ==> (#[trigger] self.blocks@[k]).0@ != id@,
            decreases self.blocks@.len() - i,
        {
            if self.blocks[i].0.equals(id) {
                proof {
                    lemma_store_map_index(self.blocks@, i as int);
                }
                return Some(i);
            }
            i += 1;
        }
        proof {
            lemma_store_map_domain(self.blocks@, id@);
        }
        None
    }

    /// Whether the store holds a block under this id.
    pub fn contains(&self, id: &BlockId) -> (r: bool)
        requires
            self.wf(),
        ensures
            r == self@.contains_key(id@),
    {
        match self.find(id) {
            Some(_) => true,
            None => false,
        }
    }

    /// Returns the block stored under `id`; the store holds no block for
    /// an id that was never added or loaded.
    pub fn get_block(&self, id: &BlockId) -> (r: Result<Block, VaultError>)
        requires
            self.wf(),
        ensures
            match r {
                Ok(b) => self@.contains_key(id@) && b@ == self@[id@],
                Err(e) => !self@.contains_key(id@) && e == VaultError::MissingBlock,
            },
    {
        match self.find(id) {
            Some(i) => Ok(self.blocks[i].1.clone()),
            None => Err(VaultError::MissingBlock),
        }
    }

    /// Idempotent insert: a block already stored under `id` stays as it
    /// is, otherwise the given block is stored. Returns the given block;
    /// persisting the encrypted bytes is the caller's part.
    pub fn add_block(&mut self, id: &BlockId, _encrypted_block: &EncryptedBlock, block: Block) -> (r:
        Block)
        requires
            old(self).wf(),
        ensures
            final(self).wf(),
            final(self)@ == (if old(self)@.contains_key(id@) {
                old(self)@
            } else {
                old(self)@.insert(id@, block@)
            }),
            r@ == block@,
    {
        match self.find(id) {
            Some(_) => block,
            None => {
                let stored = block.clone();
                self.blocks.push((*id, stored));
                proof {
                    let e2 = self.blocks@;
                    let d = old(self).blocks@;
                    assert(e2.drop_last() =~= d);
                    assert(keys_unique(e2)) by {
                        lemma_store_map_domain(d, id@);
                        assert(forall|x: int| 0 <= x < d.len() ==> #[trigger] e2[x] == d[x]);
                    }
                }
                block
            },
        }
    }

    /// Decrypts bytes read back from a block file and stores the block
    /// under `id`, replacing any previous entry.
    pub fn load_block_from_file(&mut self, id: &BlockId, data: bytes::Bytes, key: u128) -> (r:
        Block)
        requires
            old(self).wf(),
        ensures
            final(self).wf(),
            final(self)@ == old(self)@.insert(id@, crate::block::bytes_content(data)),
            r@ == crate::block::bytes_content(data),
    {
        let block = EncryptedBlock::from_data(data).decrypt(key);
        let stored = block.clone();
        match self.find(id) {
            Some(i) => {
                self.blocks.set(i, (*id, stored));
                proof {
                    lemma_store_map_update(old(self).blocks@, i as int, self.blocks@[i as int]);
                    assert(keys_unique(self.blocks@)) by {
                        let d = old(self).blocks@;
                        let e2 = self.blocks@;
                        assert(forall|x: int| 0 <= x < d.len() && x != i
                            ==> #[trigger] e2[x] == d[x]);
                    }
                }
            },
            None => {
                self.blocks.push((*id, stored));
                proof {
                    let e2 = self.blocks@;
                    let d = old(self).blocks@;
                    assert(e2.drop_last() =~= d);
                    assert(keys_unique(e2)) by {
                        lemma_store_map_domain(d, id@);
                        assert(forall|x: int| 0 <= x < d.len() ==> #[trigger] e2[x] == d[x]);
                    }
                }
            },
        }
        block
    }

    /// Reads a block id back from the 32 bytes of a pointer file.
    pub fn load_block_id_from_file(data: &Vec<u8>) -> (r: Result<BlockId, VaultError>)
        ensures
            match r {
                Ok(id) => data@.len() == 32 && id@ == data@,
                Err(e) => data@.len() != 32 && e == VaultError::CorruptId,
            },
    {
        if data.len() != 32 {
            return Err(VaultError::CorruptId);
        }
        let mut arr: [u8; 32] = [0u8; 32];
        let mut i: usize = 0;
        while i < 32
            invariant
                0 <= i <= 32,
                data@.len() == 32,
                forall|q: int| 0 <= q < i ==> arr@[q] == data@[q],
            decreases 32 - i,
        {
            arr[i] = data[i];
            i += 1;
        }
        proof {
            assert(arr@ =~= data@);
        }
        Ok(BlockId::from_data(arr))
    }

    /// The 32 bytes that the pointer file must hold for this id.
    pub fn save_block_id_to_file(id: &BlockId) -> (r: Vec<u8>)
        ensures
            r@ == id@,
    {
        slice_to_vec(id.data().as_slice())
    }
}

} // verus!
