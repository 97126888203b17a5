use vstd::prelude::*;

verus! {

use vstd::pervasive::VecAdditionalExecFns;
use vstd::slice::slice_to_vec;
use vstd::string::StringSliceAdditionalSpecFns;
use crate::block::Block;
use crate::codec::{
    decode_block, encode_block, entries_view, nodes_view, spec_block_bytes, spec_content_bytes,
    spec_decode, spec_entries_bytes, spec_entry_bytes, spec_id_bytes, spec_node_bytes,
    spec_node_kind, spec_nodes_bytes, Entry, EntryView, IdView, Node, NodeKind, NodeView, UnionId,
    bytes_equal, node_kind_of,
};
use crate::err::VaultError;
use crate::ids::{is_valid_block_size, BlockId, MAX_BLOCK_SIZE};

broadcast use crate::ids::lemma_block_id_len;

// An info block pairs a block with the node list its bytes decode to.
// Every operation that changes the nodes returns a freshly encoded block;
// the block in hand is never mutated.

impl Clone for UnionId {
    /// A clone is the same reference.
    fn clone(&self) -> (r: Self)
        ensures
            r@ == self@,
    {
        match self {
            UnionId::Local(k) => UnionId::Local(*k),
            UnionId::Block(b) => UnionId::Block(*b),
            UnionId::Shard(s) => UnionId::Shard(*s),
        }
    }
}

impl Clone for Entry {
    /// A clone is the same entry.
    fn clone(&self) -> (r: Self)
        ensures
            r@ == self@,
    {
        Entry { name: slice_to_vec(self.name.as_slice()), id: self.id.clone() }
    }
}

/// Clones an entry list, preserving its view.
fn clone_entries(entries: &Vec<Entry>) -> (r: Vec<Entry>)
    ensures
        entries_view(r@) == entries_view(entries@),
        r@.len() == entries@.len(),
{
    let mut es: Vec<Entry> = Vec::new();
    let mut i: usize = 0;
    while i < entries.len()
        invariant
            0 <= i <= entries@.len(),
            es@.len() == i,
            forall|k: int| 0 <= k < i ==> (#[trigger] es@[k])@ == entries@[k]@,
        decreases entries@.len() - i,
    {
        es.push(entries[i].clone());
        i += 1;
    }
    proof {
        assert(entries_view(es@) =~= entries_view(entries@));
    }
    es
}

impl Clone for Node {
    /// A clone is the same node.
    fn clone(&self) -> (r: Self)
        ensures
            r@ == self@,
    {
        match self {
            Node::Directory { entries } => {
                let es = clone_entries(entries);
                proof {
                    assert(entries_view(es@) =~= entries_view(entries@));
                }
                Node::Directory { entries: es }
            },
            Node::File { size, id } => Node::File { size: *size, id: id.clone() },
            Node::Vault { root, index } => Node::Vault { root: root.clone(), index: index.clone() },
        }
    }
}

/// Clones a node list, preserving its view.
fn clone_nodes(nodes: &Vec<Node>) -> (r: Vec<Node>)
    ensures
        nodes_view(r@) == nodes_view(nodes@),
        r@.len() == nodes@.len(),
{
    let mut out: Vec<Node> = Vec::new();
    let mut i: usize = 0;
    while i < nodes.len()
        invariant
            0 <= i <= nodes@.len(),
            out@.len() == i,
            forall|k: int| 0 <= k < i ==> (#[trigger] out@[k])@ == nodes@[k]@,
        decreases nodes@.len() - i,
    {
        out.push(nodes[i].clone());
        i += 1;
    }
    proof {
        assert(nodes_view(out@) =~= nodes_view(nodes@));
    }
    out
}

/// Immutable unencrypted info block: a block and its decoded node list.
pub struct InfoBlock {
    block: Block,
    nodes: Vec<Node>,
}

impl Block {
    /// Decodes this block as an info block.
    pub fn info(&self) -> (r: Result<InfoBlock, VaultError>)
        ensures
            match r {
                Ok(ib) => {
                    &&& ib.wf()
                    &&& ib.bytes_v() == self@
                    &&& spec_decode(self@) == Some(ib.nodes_v())
                },
                Err(e) => {
                    &&& spec_decode(self@) is None
                    &&& e == VaultError::MalformedBlock
                },
            },
    {
        let v = self.to_vec();
        match decode_block(&v) {
            Ok(nodes) => Ok(InfoBlock { block: self.clone(), nodes }),
            Err(e) => Err(e),
        }
    }
}

impl InfoBlock {
    /// The decoded node list.
    pub closed spec fn nodes_v(&self) -> Seq<NodeView> {
        nodes_view(self.nodes@)
    }

    /// The underlying block's bytes.
    pub closed spec fn bytes_v(&self) -> Seq<u8> {
        self.block@
    }

    /// The block's bytes decode to exactly the held node list.
    pub open spec fn wf(&self) -> bool {
        spec_decode(self.bytes_v()) == Some(self.nodes_v())
    }

    /// The underlying block.
    pub fn block(&self) -> (r: Block)
        ensures
            r@ == self.bytes_v(),
    {
        self.block.clone()
    }

    /// How many nodes the block holds.
    pub fn node_count(&self) -> (r: usize)
        ensures
            r == self.nodes_v().len(),
    {
        self.nodes.len()
    }

    /// A fresh vault block: a single `Vault` node referencing the root
    /// directory and the index by their block ids.
    pub fn new_vault(root_id: &BlockId, index_id: &BlockId) -> (r: Block)
        ensures
            r@ == spec_block_bytes(
                seq![NodeView::Vault(IdView::Block(root_id@), IdView::Block(index_id@))],
            ),
            spec_decode(r@) == Some(
                seq![NodeView::Vault(IdView::Block(root_id@), IdView::Block(index_id@))],
            ),
            is_valid_block_size(r@.len() as int),
    {
        let mut nodes: Vec<Node> = Vec::new();
        nodes.push(
            Node::Vault { root: UnionId::Block(*root_id), index: UnionId::Block(*index_id) },
        );
        let ghost ns = nodes_view(nodes@);
        proof {
            assert(ns =~~= seq![
                NodeView::Vault(IdView::Block(root_id@), IdView::Block(index_id@)),
            ]);
            lemma_small_content(ns);
        }
        encode_nodes_total(nodes)
    }

    /// A fresh index block: an empty envelope with no nodes.
    pub fn new_index() -> (r: Block)
        ensures
            r@ == spec_block_bytes(Seq::<NodeView>::empty()),
            spec_decode(r@) == Some(Seq::<NodeView>::empty()),
            is_valid_block_size(r@.len() as int),
    {
        let nodes: Vec<Node> = Vec::new();
        let ghost ns = nodes_view(nodes@);
        proof {
            assert(ns =~~= Seq::<NodeView>::empty());
            lemma_small_content(ns);
        }
        encode_nodes_total(nodes)
    }

    /// A fresh directory block: a single `Directory` node with no entries.
    pub fn new_directory() -> (r: Block)
        ensures
            r@ == spec_block_bytes(seq![NodeView::Directory(Seq::<EntryView>::empty())]),
            spec_decode(r@) == Some(seq![NodeView::Directory(Seq::<EntryView>::empty())]),
            is_valid_block_size(r@.len() as int),
    {
        let mut nodes: Vec<Node> = Vec::new();
        nodes.push(Node::Directory { entries: Vec::new() });
        let ghost ns = nodes_view(nodes@);
        proof {
            assert(ns =~~= seq![NodeView::Directory(Seq::<EntryView>::empty())]);
            lemma_small_content(ns);
        }
        encode_nodes_total(nodes)
    }
}

/// Short node lists of simple nodes always fit the largest block size.
proof fn lemma_small_content(ns: Seq<NodeView>)
    requires
        ns.len() <= 1,
        forall|i: int| 0 <= i < ns.len() ==> match #[trigger] ns[i] {
            NodeView::Directory(es) => es.len() == 0,
            NodeView::File(_, _) => true,
            NodeView::Vault(_, id) => true,
        },
        forall|i: int| 0 <= i < ns.len() ==> match #[trigger] ns[i] {
            NodeView::Vault(a, b) => spec_id_len_ok(a) && spec_id_len_ok(b),
            NodeView::File(_, id) => spec_id_len_ok(id),
            NodeView::Directory(_) => true,
        },
    ensures
        spec_content_bytes(ns).len() <= 100,
{
    vstd::bytes::lemma_auto_spec_u16_to_from_le_bytes();
    vstd::bytes::lemma_auto_spec_u32_to_from_le_bytes();
    vstd::bytes::lemma_auto_spec_u64_to_from_le_bytes();
    if ns.len() == 1 {
        assert(ns.skip(1) =~= Seq::<NodeView>::empty());
        assert(spec_nodes_bytes(ns.skip(1)).len() == 0);
        match ns[0] {
            NodeView::Directory(es) => {
                assert(spec_entries_bytes(es).len() == 0);
                assert(spec_node_bytes(ns[0]).len() == 5);
            },
            NodeView::File(_, id) => {
                lemma_id_bytes_len(id);
                assert(spec_node_bytes(ns[0]).len() <= 42);
            },
            NodeView::Vault(a, b) => {
                lemma_id_bytes_len(a);
                lemma_id_bytes_len(b);
                assert(spec_node_bytes(ns[0]).len() <= 67);
            },
        }
    }
}

/// The wire length of a well-formed id lies between 3 and 33 bytes.
proof fn lemma_id_bytes_len(id: IdView)
    requires
        spec_id_len_ok(id),
    ensures
        3 <= spec_id_bytes(id).len() <= 33,
{
    vstd::bytes::lemma_auto_spec_u16_to_from_le_bytes();
    vstd::bytes::lemma_auto_spec_u64_to_from_le_bytes();
    match id {
        IdView::Local(_) => {},
        IdView::Block(_) => {},
        IdView::Shard(_) => {},
    }
}

/// The wire length of an id is bounded.
pub open spec fn spec_id_len_ok(id: IdView) -> bool {
    match id {
        IdView::Block(b) => b.len() == 32,
        _ => true,
    }
}

/// The index of the first entry carrying the given name, matched
/// byte-exactly on the UTF-8 encoding.
pub open spec fn spec_find_entry(es: Seq<EntryView>, name: Seq<u8>) -> Option<int>
    decreases es.len(),
{
    if es.len() == 0 {
        None
    } else if es[0].name == name {
        Some(0int)
    } else {
        match spec_find_entry(es.skip(1), name) {
            Some(i) => Some(i + 1),
            None => None,
        }
    }
}

/// What the first match is: its index is in range, it carries the name,
/// and nothing before it does; and a miss means no entry carries it.
pub proof fn lemma_find_entry_range(es: Seq<EntryView>, name: Seq<u8>)
    ensures
        match spec_find_entry(es, name) {
            Some(i) => {
                &&& 0 <= i < es.len()
                &&& es[i].name == name
                &&& forall|k: int| 0 <= k < i ==> (#[trigger] es[k]).name != name
            },
            None => forall|k: int| 0 <= k < es.len() ==> (#[trigger] es[k]).name != name,
        },
    decreases es.len(),
{
    if es.len() == 0 {
    } else if es[0].name == name {
    } else {
        let rest = es.skip(1);
        lemma_find_entry_range(rest, name);
        match spec_find_entry(rest, name) {
            Option::Some(i) => {
                assert(es[i + 1] == rest[i]);
                assert forall|k: int| 0 <= k < i + 1 implies (#[trigger] es[k]).name != name by {
                    if k > 0 {
                        assert(es[k] == rest[k - 1]);
                    }
                }
            },
            Option::None => {
                assert forall|k: int| 0 <= k < es.len() implies (#[trigger] es[k]).name
                    != name by {
                    if k > 0 {
                        assert(es[k] == rest[k - 1]);
                    }
                }
            },
        }
    }
}

proof fn lemma_find_entry_prefix(es: Seq<EntryView>, name: Seq<u8>, j: int)
    requires
        0 <= j <= es.len(),
        forall|k: int| 0 <= k < j ==> (#[trigger] es[k]).name != name,
    ensures
        j < es.len() && es[j].name == name ==> spec_find_entry(es, name) == Some(j),
        j == es.len() ==> spec_find_entry(es, name) is None,
    decreases es.len(),
{
    if es.len() == 0 {
    } else if j == 0 {
        if es[0].name == name {
        } else {
            lemma_find_entry_range(es, name);
        }
    } else {
        assert(es[0].name != name);
        let rest = es.skip(1);
        assert(forall|k: int| 0 <= k < j - 1 ==> (#[trigger] rest[k]).name != name) by {
            assert(forall|k: int| 0 <= k < j - 1 ==> rest[k] == es[k + 1]);
        }
        lemma_find_entry_prefix(rest, name, j - 1);
    }
}

/// Finds the first entry with the given name.
fn find_entry_exec(entries: &Vec<Entry>, name: &[u8]) -> (r: Option<usize>)
    ensures
        match r {
            Some(i) => {
                &&& spec_find_entry(entries_view(entries@), name@) == Some(i as int)
                &&& (i as int) < entries@.len()
            },
            None => spec_find_entry(entries_view(entries@), name@) is None,
        },
{
    let ghost es = entries_view(entries@);
    let mut j: usize = 0;
    while j < entries.len()
        invariant
            0 <= j <= entries@.len(),
            es == entries_view(entries@),
            es.len() == entries@.len(),
            forall|k: int| 0 <= k < j ==> (#[trigger] es[k]).name != name@,
        decreases entries@.len() - j,
    {
        if bytes_equal(entries[j].name.as_slice(), name) {
            proof {
                lemma_find_entry_prefix(es, name@, j as int);
            }
            return Some(j);
        }
        j += 1;
    }
    proof {
        lemma_find_entry_prefix(es, name@, es.len() as int);
    }
    None
}

impl InfoBlock {
    /// Reads the vault node: the root directory's id and the index's id.
    ///
    /// The block's first node must be a `Vault` whose references are
    /// global block ids; local and shard references are reserved here.
    pub fn get_root_id_and_index_id(&self) -> (r: Result<(BlockId, BlockId), VaultError>)
        ensures
            ({
                let ns = self.nodes_v();
                match r {
                    Ok(p) => {
                        &&& ns.len() > 0
                        &&& ns[0] matches NodeView::Vault(rt, ix) && rt == IdView::Block(p.0@)
                            && ix == IdView::Block(p.1@)
                    },
                    Err(e) => {
                        ||| (e == VaultError::MalformedBlock && ns.len() == 0)
                        ||| (e == VaultError::UnexpectedNode && ns.len() > 0 && !(ns[0] is Vault))
                        ||| (e == VaultError::Unimplemented && ns.len() > 0 && (ns[0] matches
                        NodeView::Vault(rt, ix) && !(rt is Block && ix is Block)))
                    },
                }
            }),
    {
        if self.nodes.len() == 0 {
            return Err(VaultError::MalformedBlock);
        }
        match &self.nodes[0] {
            Node::Vault { root, index } => match (root, index) {
                (UnionId::Block(r), UnionId::Block(ix)) => Ok((*r, *ix)),
                _ => Err(VaultError::Unimplemented),
            },
            _ => Err(VaultError::UnexpectedNode),
        }
    }

    /// Returns a fresh block identical to this one except that the vault
    /// node's root reference is replaced.
    pub fn update_root_id(&self, block_id: &BlockId) -> (r: Result<Block, VaultError>)
        ensures
            ({
                let ns = self.nodes_v();
                let ns2 = spec_with_root(ns, block_id@);
                match r {
                    Ok(b) => {
                        &&& ns.len() > 0 && ns[0] is Vault
                        &&& b@ == spec_block_bytes(ns2)
                        &&& spec_decode(b@) == Some(ns2)
                        &&& is_valid_block_size(b@.len() as int)
                    },
                    Err(e) => {
                        ||| (e == VaultError::UnexpectedNode && !(ns.len() > 0 && ns[0] is Vault))
                        ||| (e == VaultError::BlockTooLarge && ns.len() > 0 && ns[0] is Vault
                            && spec_content_bytes(ns2).len() > MAX_BLOCK_SIZE as int)
                    },
                }
            }),
    {
        if self.nodes.len() == 0 {
            return Err(VaultError::UnexpectedNode);
        }
        let index_copy = match &self.nodes[0] {
            Node::Vault { index, .. } => index.clone(),
            _ => {
                return Err(VaultError::UnexpectedNode);
            },
        };
        let mut nodes2 = clone_nodes(&self.nodes);
        nodes2.set(0, Node::Vault { root: UnionId::Block(*block_id), index: index_copy });
        proof {
            assert(nodes_view(nodes2@) =~~= spec_with_root(self.nodes_v(), block_id@));
        }
        match encode_block(&nodes2) {
            Ok(bytes) => {
                proof {
                    crate::codec::lemma_decode_encode(nodes_view(nodes2@));
                }
                Ok(Block::from_vec(bytes))
            },
            Err(e) => Err(e),
        }
    }

    /// Creates a new inline node of `kind`, appending to the directory at
    /// `directory_node_idx` an entry named `name` that references it.
    ///
    /// Returns the fresh block and the new node's local id, which is the
    /// old node count.
    pub fn directory_create_local_node_raw(
        &self,
        directory_node_idx: u32,
        name: &[u8],
        kind: NodeKind,
    ) -> (r: Result<(Block, u32), VaultError>)
        ensures
            ({
                let ns = self.nodes_v();
                let ok_shape = (directory_node_idx as int) < ns.len() && ns[directory_node_idx
                    as int] is Directory;
                let ns2 = spec_create_local(ns, directory_node_idx as int, name@, kind);
                match r {
                    Ok(p) => {
                        &&& ok_shape
                        &&& !(kind is Vault)
                        &&& ns.len() <= 0xFFFF
                        &&& p.1 == ns.len()
                        &&& p.0@ == spec_block_bytes(ns2)
                        &&& spec_decode(p.0@) == Some(ns2)
                        &&& is_valid_block_size(p.0@.len() as int)
                    },
                    Err(e) => {
                        ||| (e == VaultError::UnexpectedNode && !ok_shape)
                        ||| (e == VaultError::Unimplemented && ok_shape && kind is Vault)
                        ||| (e == VaultError::NodeLimit && ok_shape && !(kind is Vault)
                            && ns.len() > 0xFFFF)
                        ||| (e == VaultError::BlockTooLarge && ok_shape && !(kind is Vault)
                            && ns.len() <= 0xFFFF && spec_content_bytes(ns2).len()
                            > MAX_BLOCK_SIZE as int)
                    },
                }
            }),
    {
        let idx = directory_node_idx as usize;
        if idx >= self.nodes.len() {
            return Err(VaultError::UnexpectedNode);
        }
        match &self.nodes[idx] {
            Node::Directory { .. } => {},
            _ => {
                return Err(VaultError::UnexpectedNode);
            },
        }
        match kind {
            NodeKind::Vault => {
                return Err(VaultError::Unimplemented);
            },
            _ => {},
        }
        if self.nodes.len() > 0xFFFF {
            return Err(VaultError::NodeLimit);
        }
        let local_id = self.nodes.len() as u16;
        let new_entry = Entry {
            name: slice_to_vec(name),
            id: UnionId::Local(local_id),
        };
        let new_dir = match &self.nodes[idx] {
            Node::Directory { entries } => {
                let mut es2 = clone_entries(entries);
                es2.push(new_entry);
                Node::Directory { entries: es2 }
            },
            _ => {
                proof {
                    assert(false);
                }
                Node::Directory { entries: Vec::new() }
            },
        };
        let mut nodes2 = clone_nodes(&self.nodes);
        nodes2.set(idx, new_dir);
        let new_node = match kind {
            NodeKind::Directory => Node::Directory { entries: Vec::new() },
            NodeKind::File => Node::File { size: 1234, id: UnionId::Local(0) },
            NodeKind::Vault => {
                proof {
                    assert(false);
                }
                Node::Directory { entries: Vec::new() }
            },
        };
        nodes2.push(new_node);
        proof {
            assert(nodes_view(nodes2@) =~~= spec_create_local(
                self.nodes_v(),
                directory_node_idx as int,
                name@,
                kind,
            ));
        }
        match encode_block(&nodes2) {
            Ok(bytes) => {
                proof {
                    crate::codec::lemma_decode_encode(nodes_view(nodes2@));
                }
                Ok((Block::from_vec(bytes), local_id as u32))
            },
            Err(e) => Err(e),
        }
    }

    /// Looks a name up in the directory at `directory_node_idx`.
    ///
    /// A local entry yields `(None, local id)`; a block entry yields
    /// `(Some(id), 0)`; an absent name yields no result at all.
    pub fn directory_get_entry_block_id_and_node_index_raw(
        &self,
        directory_node_idx: u32,
        entry_name: &[u8],
    ) -> (r: Result<Option<(Option<BlockId>, u32)>, VaultError>)
        ensures
            ({
                let ns = self.nodes_v();
                let ok_shape = (directory_node_idx as int) < ns.len() && ns[directory_node_idx
                    as int] is Directory;
                let es = ns[directory_node_idx as int]->Directory_0;
                let f = spec_find_entry(es, entry_name@);
                match r {
                    Ok(res) => {
                        &&& ok_shape
                        &&& match f {
                            Option::None => res is None,
                            Option::Some(k) => match es[k].id {
                                IdView::Local(l) => res == Some((None::<BlockId>, l as u32)),
                                IdView::Block(b) => res matches Some(p) && (p.0 matches Some(bid)
                                    && bid@ == b) && p.1 == 0,
                                IdView::Shard(_) => false,
                            },
                        }
                    },
                    Err(e) => {
                        ||| (e == VaultError::UnexpectedNode && !ok_shape)
                        ||| (e == VaultError::ShardUnsupported && ok_shape && (f matches Some(k)
                            && es[k].id is Shard))
                    },
                }
            }),
    {
        let idx = directory_node_idx as usize;
        if idx >= self.nodes.len() {
            return Err(VaultError::UnexpectedNode);
        }
        match &self.nodes[idx] {
            Node::Directory { entries } => {
                match find_entry_exec(entries, entry_name) {
                    Some(j) => match &entries[j].id {
                        UnionId::Local(l) => Ok(Some((None, *l as u32))),
                        UnionId::Block(b) => Ok(Some((Some(*b), 0))),
                        UnionId::Shard(_) => Err(VaultError::ShardUnsupported),
                    },
                    None => Ok(None),
                }
            },
            _ => Err(VaultError::UnexpectedNode),
        }
    }

    /// Points the named entry of the directory at `directory_node_idx` at
    /// the given reference: a global block id, or a local node index.
    ///
    /// Returns no block when the name is absent or the entry already holds
    /// the requested reference; otherwise a fresh block with it rewritten.
    pub fn directory_set_entry_block_id_and_node_index_raw(
        &self,
        directory_node_idx: u32,
        entry_name: &[u8],
        block_id: Option<&BlockId>,
        node_index: u16,
    ) -> (r: Result<Option<Block>, VaultError>)
        ensures
            ({
                let ns = self.nodes_v();
                let ok_shape = (directory_node_idx as int) < ns.len() && ns[directory_node_idx
                    as int] is Directory;
                let es = ns[directory_node_idx as int]->Directory_0;
                let f = spec_find_entry(es, entry_name@);
                let want = (match block_id {
                    Some(b) => IdView::Block(b@),
                    None => IdView::Local(node_index),
                });
                let ns2 = spec_set_entry(ns, directory_node_idx as int, (match f {
                    Some(k) => k,
                    None => 0,
                }), want);
                match r {
                    Ok(res) => {
                        &&& ok_shape
                        &&& match f {
                            Option::None => res is None,
                            Option::Some(k) => {
                                &&& !(es[k].id is Shard)
                                &&& if es[k].id == want {
                                    res is None
                                } else {
                                    res matches Some(b) && b@ == spec_block_bytes(ns2)
                                        && spec_decode(b@) == Some(ns2)
                                        && is_valid_block_size(b@.len() as int)
                                }
                            },
                        }
                    },
                    Err(e) => {
                        ||| (e == VaultError::UnexpectedNode && !ok_shape)
                        ||| (e == VaultError::ShardUnsupported && ok_shape && (f matches Some(k)
                            && es[k].id is Shard))
                        ||| (e == VaultError::BlockTooLarge && ok_shape && (f matches Some(k)
                            && !(es[k].id is Shard) && es[k].id != want && spec_content_bytes(
                            ns2,
                        ).len() > MAX_BLOCK_SIZE as int))
                    },
                }
            }),
    {
        let idx = directory_node_idx as usize;
        if idx >= self.nodes.len() {
            return Err(VaultError::UnexpectedNode);
        }
        let j = match &self.nodes[idx] {
            Node::Directory { entries } => {
                match find_entry_exec(entries, entry_name) {
                    Some(j) => j,
                    None => {
                        return Ok(None);
                    },
                }
            },
            _ => {
                return Err(VaultError::UnexpectedNode);
            },
        };
        let new_dir = match &self.nodes[idx] {
            Node::Directory { entries } => {
                let id_matches = match (&entries[j].id, block_id) {
                    (UnionId::Local(l), None) => *l == node_index,
                    (UnionId::Block(b), Some(want_b)) => b.equals(want_b),
                    (UnionId::Shard(_), _) => {
                        return Err(VaultError::ShardUnsupported);
                    },
                    _ => false,
                };
                if id_matches {
                    return Ok(None);
                }
                let new_id = match block_id {
                    Some(b) => UnionId::Block(*b),
                    None => UnionId::Local(node_index),
                };
                let new_entry = Entry {
                    name: slice_to_vec(entries[j].name.as_slice()),
                    id: new_id,
                };
                let mut es2 = clone_entries(entries);
                es2.set(j, new_entry);
                Node::Directory { entries: es2 }
            },
            _ => {
                proof {
                    assert(false);
                }
                Node::Directory { entries: Vec::new() }
            },
        };
        let mut nodes2 = clone_nodes(&self.nodes);
        nodes2.set(idx, new_dir);
        proof {
            let want = (match block_id {
                Some(b) => IdView::Block(b@),
                None => IdView::Local(node_index),
            });
            assert(nodes_view(nodes2@) =~~= spec_set_entry(
                self.nodes_v(),
                directory_node_idx as int,
                j as int,
                want,
            ));
        }
        match encode_block(&nodes2) {
            Ok(bytes) => {
                proof {
                    crate::codec::lemma_decode_encode(nodes_view(nodes2@));
                }
                Ok(Some(Block::from_vec(bytes)))
            },
            Err(e) => Err(e),
        }
    }

    /// Lists the directory at `node_idx`: for each entry, the kind of the
    /// local node it references, and its name.
    ///
    /// Every entry must reference a local node; block and shard entries
    /// are not resolved by this version.
    pub fn directory_list(&self, node_idx: u32) -> (r: Result<Vec<(NodeKind, Vec<u8>)>, VaultError>)
        ensures
            ({
                let ns = self.nodes_v();
                let ok_shape = (node_idx as int) < ns.len() && ns[node_idx as int] is Directory;
                let es = ns[node_idx as int]->Directory_0;
                match r {
                    Ok(v) => {
                        &&& ok_shape
                        &&& v@.len() == es.len()
                        &&& forall|k: int| 0 <= k < es.len() ==> {
                            &&& (match (#[trigger] es[k]).id {
                                IdView::Local(l) => (l as int) < ns.len() && v@[k].0
                                    == spec_node_kind(ns[l as int]),
                                _ => false,
                            })
                            &&& v@[k].1@ == es[k].name
                        }
                    },
                    Err(e) => {
                        ||| (e == VaultError::UnexpectedNode && !ok_shape)
                        ||| (e == VaultError::Unimplemented && ok_shape && exists|k: int|
                            0 <= k < es.len() && !((#[trigger] es[k]).id is Local))
                        ||| (e == VaultError::MalformedBlock && ok_shape && exists|k: int|
                            0 <= k < es.len() && ((#[trigger] es[k]).id matches IdView::Local(l)
                            && (l as int) >= ns.len()))
                    },
                }
            }),
    {
        let idx = node_idx as usize;
        if idx >= self.nodes.len() {
            return Err(VaultError::UnexpectedNode);
        }
        match &self.nodes[idx] {
            Node::Directory { entries } => {
                let ghost ns = self.nodes_v();
                let ghost es = entries_view(entries@);
                proof {
                    assert(ns[node_idx as int]->Directory_0 =~= es);
                }
                let mut out: Vec<(NodeKind, Vec<u8>)> = Vec::new();
                let mut k: usize = 0;
                while k < entries.len()
                    invariant
                        0 <= k <= entries@.len(),
                        es == entries_view(entries@),
                        es.len() == entries@.len(),
                        ns == self.nodes_v(),
                        (node_idx as int) < ns.len(),
                        ns[node_idx as int] is Directory,
                        ns[node_idx as int]->Directory_0 == es,
                        self.nodes@.len() == ns.len(),
                        forall|q: int| 0 <= q < entries@.len()
                            ==> (#[trigger] entries@[q])@ == es[q],
                        out@.len() == k,
                        forall|q: int| 0 <= q < k ==> {
                            &&& (match (#[trigger] es[q]).id {
                                IdView::Local(l) => (l as int) < ns.len() && out@[q].0
                                    == spec_node_kind(ns[l as int]),
                                _ => false,
                            })
                            &&& out@[q].1@ == es[q].name
                        },
                    decreases entries@.len() - k,
                {
                    match &entries[k].id {
                        UnionId::Local(l) => {
                            let li = *l as usize;
                            if li >= self.nodes.len() {
                                proof {
                                    assert(es[k as int] == entries@[k as int]@);
                                    assert(exists|q: int| 0 <= q < es.len() && ((#[trigger] es[q]).id
                                        matches IdView::Local(ll) && (ll as int) >= ns.len()));
                                }
                                return Err(VaultError::MalformedBlock);
                            }
                            let kind = node_kind_of(&self.nodes[li]);
                            let name = slice_to_vec(entries[k].name.as_slice());
                            out.push((kind, name));
                        },
                        _ => {
                            proof {
                                assert(es[k as int] == entries@[k as int]@);
                                assert(exists|q: int| 0 <= q < es.len() && !((#[trigger] es[q]).id
                                    is Local));
                            }
                            return Err(VaultError::Unimplemented);
                        },
                    }
                    k += 1;
                }
                Ok(out)
            },
            _ => Err(VaultError::UnexpectedNode),
        }
    }
}

/// The node list with the vault node's root reference replaced.
pub open spec fn spec_with_root(ns: Seq<NodeView>, root: Seq<u8>) -> Seq<NodeView> {
    ns.update(0, NodeView::Vault(IdView::Block(root), ns[0]->Vault_1))
}

/// The node a freshly created inline node starts as: an empty directory,
/// or a file with a placeholder size and a reserved local reference.
pub open spec fn spec_new_node(kind: NodeKind) -> NodeView {
    match kind {
        NodeKind::Directory => NodeView::Directory(Seq::<EntryView>::empty()),
        NodeKind::File => NodeView::File(1234, IdView::Local(0)),
        NodeKind::Vault => NodeView::Vault(IdView::Local(0), IdView::Local(0)),
    }
}

/// The node list after creating an inline node under the directory at
/// `idx`: the directory gains an entry referencing the new node, and the
/// new node is appended with local id `ns.len()`.
pub open spec fn spec_create_local(
    ns: Seq<NodeView>,
    idx: int,
    name: Seq<u8>,
    kind: NodeKind,
) -> Seq<NodeView> {
    let es = ns[idx]->Directory_0;
    ns.update(
        idx,
        NodeView::Directory(es.push(EntryView { name, id: IdView::Local(ns.len() as u16) })),
    ).push(spec_new_node(kind))
}

/// The node list after pointing entry `k` of the directory at `idx` at a
/// new reference; the entry keeps its name.
pub open spec fn spec_set_entry(ns: Seq<NodeView>, idx: int, k: int, id: IdView) -> Seq<NodeView> {
    let es = ns[idx]->Directory_0;
    ns.update(idx, NodeView::Directory(es.update(k, EntryView { name: es[k].name, id })))
}

/// Encodes a node list already known to fit a block.
fn encode_nodes_total(nodes: Vec<Node>) -> (r: Block)
    requires
        spec_content_bytes(nodes_view(nodes@)).len() <= MAX_BLOCK_SIZE as int,
    ensures
        r@ == spec_block_bytes(nodes_view(nodes@)),
        spec_decode(r@) == Some(nodes_view(nodes@)),
        is_valid_block_size(r@.len() as int),
{
    match encode_block(&nodes) {
        Ok(bytes) => {
            proof {
                crate::codec::lemma_decode_encode(nodes_view(nodes@));
            }
            Block::from_vec(bytes)
        },
        Err(_) => {
            proof {
                assert(false);
            }
            Block::empty()
        },
    }
}

impl InfoBlock {
    /// As `directory_create_local_node_raw`, with the name given as text;
    /// matching is on its UTF-8 bytes.
    pub fn directory_create_local_node(
        &self,
        directory_node_idx: u32,
        name: &str,
        kind: NodeKind,
    ) -> (r: Result<(Block, u32), VaultError>)
        ensures
            ({
                let ns = self.nodes_v();
                let ok_shape = (directory_node_idx as int) < ns.len() && ns[directory_node_idx
                    as int] is Directory;
                let ns2 = spec_create_local(ns, directory_node_idx as int, name.spec_bytes(), kind);
                match r {
                    Ok(p) => {
                        &&& ok_shape
                        &&& !(kind is Vault)
                        &&& ns.len() <= 0xFFFF
                        &&& p.1 == ns.len()
                        &&& p.0@ == spec_block_bytes(ns2)
                        &&& spec_decode(p.0@) == Some(ns2)
                        &&& is_valid_block_size(p.0@.len() as int)
                    },
                    Err(e) => {
                        ||| (e == VaultError::UnexpectedNode && !ok_shape)
                        ||| (e == VaultError::Unimplemented && ok_shape && kind is Vault)
                        ||| (e == VaultError::NodeLimit && ok_shape && !(kind is Vault)
                            && ns.len() > 0xFFFF)
                        ||| (e == VaultError::BlockTooLarge && ok_shape && !(kind is Vault)
                            && ns.len() <= 0xFFFF && spec_content_bytes(ns2).len()
                            > MAX_BLOCK_SIZE as int)
                    },
                }
            }),
    {
        self.directory_create_local_node_raw(directory_node_idx, name.as_bytes(), kind)
    }

    /// As `directory_get_entry_block_id_and_node_index_raw`, with the name
    /// given as text; matching is on its UTF-8 bytes.
    pub fn directory_get_entry_block_id_and_node_index(
        &self,
        directory_node_idx: u32,
        entry_name: &str,
    ) -> (r: Result<Option<(Option<BlockId>, u32)>, VaultError>)
        ensures
            ({
                let ns = self.nodes_v();
                let ok_shape = (directory_node_idx as int) < ns.len() && ns[directory_node_idx
                    as int] is Directory;
                let es = ns[directory_node_idx as int]->Directory_0;
                let f = spec_find_entry(es, entry_name.spec_bytes());
                match r {
                    Ok(res) => {
                        &&& ok_shape
                        &&& match f {
                            Option::None => res is None,
                            Option::Some(k) => match es[k].id {
                                IdView::Local(l) => res == Some((None::<BlockId>, l as u32)),
                                IdView::Block(b) => res matches Some(p) && (p.0 matches Some(bid)
                                    && bid@ == b) && p.1 == 0,
                                IdView::Shard(_) => false,
                            },
                        }
                    },
                    Err(e) => {
                        ||| (e == VaultError::UnexpectedNode && !ok_shape)
                        ||| (e == VaultError::ShardUnsupported && ok_shape && (f matches Some(k)
                            && es[k].id is Shard))
                    },
                }
            }),
    {
        self.directory_get_entry_block_id_and_node_index_raw(directory_node_idx, entry_name.as_bytes())
    }

    /// As `directory_set_entry_block_id_and_node_index_raw`, with the name
    /// given as text; matching is on its UTF-8 bytes.
    pub fn directory_set_entry_block_id_and_node_index(
        &self,
        directory_node_idx: u32,
        entry_name: &str,
        block_id: Option<&BlockId>,
        node_index: u16,
    ) -> (r: Result<Option<Block>, VaultError>)
        ensures
            ({
                let ns = self.nodes_v();
                let ok_shape = (directory_node_idx as int) < ns.len() && ns[directory_node_idx
                    as int] is Directory;
                let es = ns[directory_node_idx as int]->Directory_0;
                let f = spec_find_entry(es, entry_name.spec_bytes());
                let want = (match block_id {
                    Some(b) => IdView::Block(b@),
                    None => IdView::Local(node_index),
                });
                let ns2 = spec_set_entry(ns, directory_node_idx as int, (match f {
                    Some(k) => k,
                    None => 0,
                }), want);
                match r {
                    Ok(res) => {
                        &&& ok_shape
                        &&& match f {
                            Option::None => res is None,
                            Option::Some(k) => {
                                &&& !(es[k].id is Shard)
                                &&& if es[k].id == want {
                                    res is None
                                } else {
                                    res matches Some(b) && b@ == spec_block_bytes(ns2)
                                        && spec_decode(b@) == Some(ns2)
                                        && is_valid_block_size(b@.len() as int)
                                }
                            },
                        }
                    },
                    Err(e) => {
                        ||| (e == VaultError::UnexpectedNode && !ok_shape)
                        ||| (e == VaultError::ShardUnsupported && ok_shape && (f matches Some(k)
                            && es[k].id is Shard))
                        ||| (e == VaultError::BlockTooLarge && ok_shape && (f matches Some(k)
                            && !(es[k].id is Shard) && es[k].id != want && spec_content_bytes(
                            ns2,
                        ).len() > MAX_BLOCK_SIZE as int))
                    },
                }
            }),
    {
        self.directory_set_entry_block_id_and_node_index_raw(
            directory_node_idx,
            entry_name.as_bytes(),
            block_id,
            node_index,
        )
    }

    /// Whether node `idx` exists and is a directory.
    pub fn is_directory(&self, idx: u32) -> (r: bool)
        ensures
            r == ((idx as int) < self.nodes_v().len() && self.nodes_v()[idx as int] is Directory),
    {
        let i = idx as usize;
        if i >= self.nodes.len() {
            return false;
        }
        match &self.nodes[i] {
            Node::Directory { .. } => true,
            _ => false,
        }
    }
}

} // verus!
