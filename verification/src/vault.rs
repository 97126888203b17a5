use vstd::prelude::*;

verus! {

use vstd::pervasive::VecAdditionalExecFns;
use vstd::slice::slice_to_vec;
use vstd::string::StringSliceAdditionalSpecFns;
use vstd::utf8::is_ascii_chars_encode_utf8;
use crate::block::{spec_id_of, Block, EncryptedBlock};
use crate::codec::{
    spec_block_bytes, spec_content_bytes, spec_decode, spec_entries_bytes, spec_entry_bytes,
    spec_id_bytes, spec_node_bytes, spec_node_kind, spec_nodes_bytes, EntryView, IdView, Node,
    NodeKind, NodeView, UnionId,
};
use crate::codec::bytes_equal;
use crate::err::VaultError;
use crate::file::File;
use crate::ids::{BlockId, BlockKind, BlockSize, MAX_BLOCK_SIZE};
use crate::info::{spec_create_local, spec_find_entry, spec_set_entry, spec_with_root, InfoBlock};
use crate::path::{comps_view, VaultPath};
use crate::provider::{BlockWrite, Provider};

broadcast use crate::ids::lemma_block_id_len;

// The vault engine. Every mutation is functional: it produces new blocks
// in the provider and a plan of writes, and only after those are durable
// may the caller point the on-disk vault pointer at the new vault id.

/// Whether a node references block id `b`.
pub open spec fn node_refers(n: NodeView, b: Seq<u8>) -> bool {
    match n {
        NodeView::Directory(es) => exists|i: int|
            0 <= i < es.len() && (#[trigger] es[i]).id == IdView::Block(b),
        NodeView::File(_, id) => id == IdView::Block(b),
        NodeView::Vault(r, ix) => r == IdView::Block(b) || ix == IdView::Block(b),
    }
}

/// Whether a node list references block id `b`.
pub open spec fn spec_refers(ns: Seq<NodeView>, b: Seq<u8>) -> bool {
    exists|i: int| 0 <= i < ns.len() && node_refers(#[trigger] ns[i], b)
}

/// Whether decodable block bytes reference block id `b`.
pub open spec fn decoded_refers(bytes: Seq<u8>, b: Seq<u8>) -> bool {
    match spec_decode(bytes) {
        Some(ns) => spec_refers(ns, b),
        None => false,
    }
}

/// A closed store: every block id referenced from a stored info block is
/// itself stored.
pub open spec fn provider_closed(m: Map<Seq<u8>, Seq<u8>>) -> bool {
    forall|k: Seq<u8>, b: Seq<u8>| m.contains_key(k) && #[trigger] decoded_refers(m[k], b)
        ==> m.contains_key(b)
}

/// Hop-bounded reachability between ids through stored blocks.
pub open spec fn spec_reaches(m: Map<Seq<u8>, Seq<u8>>, a: Seq<u8>, b: Seq<u8>, n: nat) -> bool
    decreases n,
{
    if n == 0 {
        a == b
    } else {
        exists|c: Seq<u8>|
            #![auto]
            m.contains_key(a) && decoded_refers(m[a], c) && spec_reaches(m, c, b, (n - 1) as nat)
    }
}

/// In a closed store, every id reachable from a stored id is stored.
///
/// This is what makes the commit order safe: a mutation stores all new
/// blocks (and the plan lists them for the disk) before the caller may
/// rewrite the vault pointer, so the pointer never leads, through any
/// chain of references, to a block that is not durable.
pub proof fn lemma_closed_reachable(m: Map<Seq<u8>, Seq<u8>>, a: Seq<u8>, b: Seq<u8>, n: nat)
    requires
        provider_closed(m),
        m.contains_key(a),
        spec_reaches(m, a, b, n),
    ensures
        m.contains_key(b),
    decreases n,
{
    if n > 0 {
        let c = choose|c: Seq<u8>|
            #![auto]
            m.contains_key(a) && decoded_refers(m[a], c) && spec_reaches(m, c, b, (n - 1) as nat);
        assert(decoded_refers(m[a], c));
        assert(m.contains_key(c));
        lemma_closed_reachable(m, c, b, (n - 1) as nat);
    }
}

/// What a vault's well-formedness gives every caller: the store is
/// closed, the root and index blocks are stored with the held decodes,
/// and the vault node references exactly them. External proofs reach the
/// facts behind the otherwise opaque `Vault::wf` through this lemma.
pub proof fn lemma_wf_facts(v: &Vault)
    requires
        v.wf(),
    ensures
        provider_closed(v.store()),
        v.store().contains_key(v.root_id_v()),
        v.store().contains_key(v.index_id_v()),
        spec_decode(v.store()[v.root_id_v()]) == Some(v.root_nodes()),
        v.vault_nodes() == seq![
            NodeView::Vault(IdView::Block(v.root_id_v()), IdView::Block(v.index_id_v())),
        ],
        v.root_nodes().len() > 0,
        v.root_nodes()[0] is Directory,
{
}

/// Orphan blocks never change what a stored root resolves or lists: a
/// walk that starts at a stored id of a closed store consults only
/// blocks of that store, so an extension that preserves the store gives
/// the same resolution, and the resolved target keeps its listability.
pub proof fn lemma_walk_in_closed_store(
    m1: Map<Seq<u8>, Seq<u8>>,
    m2: Map<Seq<u8>, Seq<u8>>,
    id: Seq<u8>,
    idx: int,
    names: Seq<Seq<u8>>,
)
    requires
        provider_closed(m1),
        submap_of(m1, m2),
        m1.contains_key(id),
    ensures
        spec_walk(m2, id, idx, names) == spec_walk(m1, id, idx, names),
        spec_walk(m1, id, idx, names) matches Some(t) ==> m1.contains_key(t.0) && spec_listable(
            m2,
            t.0,
            t.1,
        ) == spec_listable(m1, t.0, t.1),
    decreases names.len(),
{
    if names.len() == 0 {
    } else {
        match spec_decode(m1[id]) {
            Option::None => {},
            Option::Some(ns) => {
                if 0 <= idx < ns.len() && ns[idx] is Directory {
                    match crate::info::spec_find_entry(ns[idx]->Directory_0, names[0]) {
                        Option::None => {},
                        Option::Some(k) => {
                            crate::info::lemma_find_entry_range(ns[idx]->Directory_0, names[0]);
                            match ns[idx]->Directory_0[k].id {
                                IdView::Local(l) => {
                                    lemma_walk_in_closed_store(
                                        m1,
                                        m2,
                                        id,
                                        l as int,
                                        names.skip(1),
                                    );
                                },
                                IdView::Block(b) => {
                                    assert(node_refers(ns[idx], b));
                                    assert(spec_refers(ns, b));
                                    assert(decoded_refers(m1[id], b));
                                    assert(m1.contains_key(b));
                                    lemma_walk_in_closed_store(m1, m2, b, 0, names.skip(1));
                                },
                                IdView::Shard(_) => {},
                            }
                        },
                    }
                }
            },
        }
    }
}

/// The commit discipline in one fact: a well-formed vault stores every
/// id reachable from any stored id, the committed vault id included. A
/// mutation's plan lists everything the store gained (`grew_by`), so
/// once the caller has flushed the plan's block writes, no chain of
/// references from the newly committed vault id leads to a block that is
/// not durable, and only then may the pointer file change.
pub proof fn lemma_commit_reachable(v: &Vault, vault_id: Seq<u8>, b: Seq<u8>, n: nat)
    requires
        v.wf(),
        v.store().contains_key(vault_id),
        spec_reaches(v.store(), vault_id, b, n),
    ensures
        v.store().contains_key(b),
{
    lemma_wf_facts(v);
    lemma_closed_reachable(v.store(), vault_id, b, n);
}

/// Every stored id is listed in the writes.
pub open spec fn writes_cover(m: Map<Seq<u8>, Seq<u8>>, ws: Seq<BlockWrite>) -> bool {
    forall|k: Seq<u8>| m.contains_key(k) ==> exists|i: int|
        0 <= i < ws.len() && (#[trigger] ws[i]).id@ == k
}

/// The writes one operation produced: block files to persist, and the
/// vault id to commit to the pointer file only after they are durable.
pub struct CommitPlan {
    /// The block files to write, in order.
    pub writes: Vec<BlockWrite>,
    /// The id of the new vault block; its 32 bytes replace the pointer
    /// file's contents once every block write has been flushed.
    pub vault_id: BlockId,
}

/// An open vault: the backing provider, the vault, root and index info
/// blocks, and the cached root and index ids.
pub struct Vault {
    provider: Provider,
    vault: InfoBlock,
    root: InfoBlock,
    root_id: BlockId,
    index_id: BlockId,
    index: InfoBlock,
}

impl Vault {
    /// The provider's contents, as a map from id bytes to block bytes.
    pub closed spec fn store(&self) -> Map<Seq<u8>, Seq<u8>> {
        self.provider@
    }

    /// The current root directory block's id bytes.
    pub closed spec fn root_id_v(&self) -> Seq<u8> {
        self.root_id@
    }

    /// The index block's id bytes.
    pub closed spec fn index_id_v(&self) -> Seq<u8> {
        self.index_id@
    }

    /// The root directory block's node list.
    pub closed spec fn root_nodes(&self) -> Seq<NodeView> {
        self.root.nodes_v()
    }

    /// The vault block's node list.
    pub closed spec fn vault_nodes(&self) -> Seq<NodeView> {
        self.vault.nodes_v()
    }

    /// A well-formed vault: the store is closed and holds the root and
    /// index blocks; the vault block is a single vault node referencing
    /// them; the root block's first node is a directory.
    pub closed spec fn wf(&self) -> bool {
        &&& self.provider.wf()
        &&& provider_closed(self.store())
        &&& self.vault.wf()
        &&& self.root.wf()
        &&& self.index.wf()
        &&& self.store().contains_key(self.root_id_v())
        &&& self.store()[self.root_id_v()] == self.root.bytes_v()
        &&& self.store().contains_key(self.index_id_v())
        &&& self.store()[self.index_id_v()] == self.index.bytes_v()
        &&& self.vault_nodes() == seq![
            NodeView::Vault(IdView::Block(self.root_id_v()), IdView::Block(self.index_id_v())),
        ]
        &&& self.root_nodes().len() > 0
        &&& self.root_nodes()[0] is Directory
    }

    /// The id of the current root directory block.
    pub fn root_id(&self) -> (r: BlockId)
        ensures
            r@ == self.root_id_v(),
    {
        self.root_id
    }

    /// The id of the index block.
    pub fn index_id(&self) -> (r: BlockId)
        ensures
            r@ == self.index_id_v(),
    {
        self.index_id
    }
}

/// Resolves a component list to a block id and node index, walking from
/// the given directory node: a local entry stays inside the current
/// block, a block entry switches to that block at node 0.
pub open spec fn spec_walk(
    m: Map<Seq<u8>, Seq<u8>>,
    id: Seq<u8>,
    idx: int,
    names: Seq<Seq<u8>>,
) -> Option<(Seq<u8>, int)>
    decreases names.len(),
{
    if names.len() == 0 {
        Some((id, idx))
    } else if !m.contains_key(id) {
        None
    } else {
        match spec_decode(m[id]) {
            Option::None => None,
            Option::Some(ns) => {
                if !(0 <= idx < ns.len() && ns[idx] is Directory) {
                    None
                } else {
                    match spec_find_entry(ns[idx]->Directory_0, names[0]) {
                        Option::None => None,
                        Option::Some(k) => match ns[idx]->Directory_0[k].id {
                            IdView::Local(l) => spec_walk(m, id, l as int, names.skip(1)),
                            IdView::Block(b) => spec_walk(m, b, 0, names.skip(1)),
                            IdView::Shard(_) => None,
                        },
                    }
                }
            },
        }
    }
}

/// Directory node `idx` of stored block `id` can be listed: every entry
/// is a local reference to an existing node.
pub open spec fn spec_listable(m: Map<Seq<u8>, Seq<u8>>, id: Seq<u8>, idx: int) -> bool {
    &&& m.contains_key(id)
    &&& match spec_decode(m[id]) {
        Option::Some(ns) => {
            &&& 0 <= idx < ns.len()
            &&& ns[idx] is Directory
            &&& ({
                let es = ns[idx]->Directory_0;
                forall|k: int| 0 <= k < es.len() ==> match (#[trigger] es[k]).id {
                    IdView::Local(l) => (l as int) < ns.len(),
                    _ => false,
                }
            })
        },
        Option::None => false,
    }
}

/// The node list of a freshly initialized root directory: a directory
/// whose only entry is `welcome`, referencing the empty inline directory
/// beside it.
pub open spec fn spec_initial_root_nodes() -> Seq<NodeView> {
    seq![
        NodeView::Directory(
            seq![EntryView { name: "welcome".spec_bytes(), id: IdView::Local(1) }],
        ),
        NodeView::Directory(Seq::<EntryView>::empty()),
    ]
}

/// The first id the resolution of a component list consults, or ends
/// at, that the store does not hold; a walk that fails for any other
/// reason (a malformed block, a missing name, a shard entry) reports
/// nothing, since loading a block would not help it.
pub open spec fn spec_walk_missing(
    m: Map<Seq<u8>, Seq<u8>>,
    id: Seq<u8>,
    idx: int,
    names: Seq<Seq<u8>>,
) -> Option<Seq<u8>>
    decreases names.len(),
{
    if !m.contains_key(id) {
        Some(id)
    } else if names.len() == 0 {
        None
    } else {
        match spec_decode(m[id]) {
            Option::None => None,
            Option::Some(ns) => {
                if !(0 <= idx < ns.len() && ns[idx] is Directory) {
                    None
                } else {
                    match crate::info::spec_find_entry(ns[idx]->Directory_0, names[0]) {
                        Option::None => None,
                        Option::Some(k) => match ns[idx]->Directory_0[k].id {
                            IdView::Local(l) => spec_walk_missing(m, id, l as int, names.skip(1)),
                            IdView::Block(b) => spec_walk_missing(m, b, 0, names.skip(1)),
                            IdView::Shard(_) => None,
                        },
                    }
                }
            },
        }
    }
}

/// A store opens under `vid` when it holds a decodable single-node vault
/// block there whose root and index are stored block ids, and the root
/// block decodes with a directory as its first node.
pub open spec fn spec_openable(m: Map<Seq<u8>, Seq<u8>>, vid: Seq<u8>) -> bool {
    &&& m.contains_key(vid)
    &&& match spec_decode(m[vid]) {
        Some(ns) => {
            &&& ns.len() == 1
            &&& (ns[0] matches NodeView::Vault(rt, ix) && (rt matches IdView::Block(r) && (ix
                matches IdView::Block(i) && {
                &&& m.contains_key(r)
                &&& m.contains_key(i)
                &&& match spec_decode(m[r]) {
                    Some(rns) => rns.len() > 0 && rns[0] is Directory,
                    None => false,
                }
                &&& spec_decode(m[i]) is Some
            })))
        },
        None => false,
    }
}

impl Vault {
    /// Opens the vault rooted at `vault_id`: reads the vault block from
    /// the provider, resolves the root and index blocks it references,
    /// and assembles the state. The blocks must already be loaded.
    pub fn open(provider: Provider, vault_id: &BlockId) -> (r: Result<Vault, VaultError>)
        requires
            provider.wf(),
            provider_closed(provider@),
        ensures
            match r {
                Ok(v) => {
                    &&& spec_openable(provider@, vault_id@)
                    &&& v.wf()
                    &&& v.store() == provider@
                    &&& spec_decode(provider@[vault_id@]) == Some(v.vault_nodes())
                    &&& v.vault_nodes() == seq![
                        NodeView::Vault(
                            IdView::Block(v.root_id_v()),
                            IdView::Block(v.index_id_v()),
                        ),
                    ]
                },
                Err(_) => !spec_openable(provider@, vault_id@),
            },
    {
        let vault_block = match provider.get_block(vault_id) {
            Ok(b) => b,
            Err(e) => {
                return Err(e);
            },
        };
        let vault_info = match vault_block.info() {
            Ok(i) => i,
            Err(e) => {
                return Err(e);
            },
        };
        if vault_info.node_count() != 1 {
            return Err(VaultError::UnexpectedNode);
        }
        let (root_id, index_id) = match vault_info.get_root_id_and_index_id() {
            Ok(p) => p,
            Err(e) => {
                return Err(e);
            },
        };
        let root_block = match provider.get_block(&root_id) {
            Ok(b) => b,
            Err(e) => {
                return Err(e);
            },
        };
        let root_info = match root_block.info() {
            Ok(i) => i,
            Err(e) => {
                return Err(e);
            },
        };
        if !root_info.is_directory(0) {
            return Err(VaultError::UnexpectedNode);
        }
        let index_block = match provider.get_block(&index_id) {
            Ok(b) => b,
            Err(e) => {
                return Err(e);
            },
        };
        let index_info = match index_block.info() {
            Ok(i) => i,
            Err(e) => {
                return Err(e);
            },
        };
        proof {
            assert(vault_info.nodes_v() =~~= seq![
                NodeView::Vault(IdView::Block(root_id@), IdView::Block(index_id@)),
            ]);
        }
        Ok(
            Vault {
                provider,
                vault: vault_info,
                root: root_info,
                root_id,
                index_id,
                index: index_info,
            },
        )
    }

    /// Builds a fresh vault: a root directory holding an empty `welcome`
    /// directory, an empty index, and a vault block referencing both.
    ///
    /// Starts, by design, from an empty provider: a fresh vault owns its
    /// store, so the plan's writes cover every stored block and the
    /// returned ids are the content ids of the written bytes. The only
    /// failure is two of the three fresh blocks digesting to one id.
    ///
    /// Returns the open vault and the plan whose block writes must be
    /// durable before the vault id goes into the pointer file.
    pub fn initialize(provider: Provider) -> (r: Result<(Vault, CommitPlan), VaultError>)
        requires
            provider.wf(),
            provider@ == Map::<Seq<u8>, Seq<u8>>::empty(),
        ensures
            r matches Err(e) ==> ({
                let rb = spec_block_bytes(spec_initial_root_nodes());
                let ib = spec_block_bytes(Seq::<NodeView>::empty());
                let rid = spec_id_of(rb, true);
                let iid = spec_id_of(ib, true);
                let vb = spec_block_bytes(
                    seq![NodeView::Vault(IdView::Block(rid), IdView::Block(iid))],
                );
                let vid = spec_id_of(vb, true);
                &&& e == VaultError::CorruptId
                &&& (iid == rid || vid == rid || vid == iid)
            }),
            ({
                let v = r.unwrap().0;
                let plan = r.unwrap().1;
                r is Ok ==>
                ({
                    &&& v.wf()
                    &&& v.store().contains_key(plan.vault_id@)
                    &&& spec_decode(v.store()[plan.vault_id@]) == Some(v.vault_nodes())
                    &&& v.vault_nodes() == seq![
                        NodeView::Vault(
                            IdView::Block(v.root_id_v()),
                            IdView::Block(v.index_id_v()),
                        ),
                    ]
                    &&& v.root_nodes() == spec_initial_root_nodes()
                    &&& v.store().contains_key(v.root_id_v())
                    &&& spec_decode(v.store()[v.root_id_v()]) == Some(v.root_nodes())
                    &&& v.store().contains_key(v.index_id_v())
                    &&& spec_decode(v.store()[v.index_id_v()]) == Some(Seq::<NodeView>::empty())
                    &&& v.root_id_v() == spec_id_of(v.store()[v.root_id_v()], true)
                    &&& v.index_id_v() == spec_id_of(v.store()[v.index_id_v()], true)
                    &&& plan.vault_id@ == spec_id_of(v.store()[plan.vault_id@], true)
                    &&& forall|i: int| 0 <= i < plan.writes@.len() ==> {
                        &&& v.store().contains_key((#[trigger] plan.writes@[i]).id@)
                        &&& v.store()[plan.writes@[i].id@] == plan.writes@[i].data@
                    }
                    &&& writes_cover(v.store(), plan.writes@)
                })
            }),
    {
        let ghost m0 = provider@;
        let mut provider = provider;
        let mut writes: Vec<BlockWrite> = Vec::new();

        // the root directory, with an empty directory named "welcome"
        let root_seed = InfoBlock::new_directory();
        let root_seed_info = match root_seed.info() {
            Ok(i) => i,
            Err(e) => {
                proof {
                    assert(false);
                }
                return Err(e);
            },
        };
        proof {
            reveal_strlit("welcome");
            assert(vstd::utf8::is_ascii_chars("welcome"@));
            is_ascii_chars_encode_utf8("welcome"@);
            assert("welcome".spec_bytes().len() == 7);
            lemma_init_root_content("welcome".spec_bytes());
            assert(spec_create_local(
                root_seed_info.nodes_v(),
                0,
                "welcome".spec_bytes(),
                NodeKind::Directory,
            ) =~~= seq![
                NodeView::Directory(
                    seq![EntryView { name: "welcome".spec_bytes(), id: IdView::Local(1) }],
                ),
                NodeView::Directory(Seq::<EntryView>::empty()),
            ]);
        }
        let (root_block, _) = match root_seed_info.directory_create_local_node(
            0,
            "welcome",
            NodeKind::Directory,
        ) {
            Ok(p) => p,
            Err(e) => {
                proof {
                    assert(false);
                }
                return Err(e);
            },
        };
        let root_info = match root_block.info() {
            Ok(i) => i,
            Err(e) => {
                proof {
                    assert(false);
                }
                return Err(e);
            },
        };
        let enc_root = EncryptedBlock::encrypt(&root_block, 0);
        let root_id = enc_root.id(BlockKind::Info);
        if !provider.contains(&root_id) {
            writes.push(BlockWrite { id: root_id, data: enc_root.to_vec() });
        }
        provider.add_block(&root_id, &enc_root, root_block);
        proof {
            lemma_closed_after_insert(m0, root_id@, root_info.bytes_v());
        }

        // the empty index
        let index_block = InfoBlock::new_index();
        let index_info = match index_block.info() {
            Ok(i) => i,
            Err(e) => {
                proof {
                    assert(false);
                }
                return Err(e);
            },
        };
        let enc_index = EncryptedBlock::encrypt(&index_block, 0);
        let index_id = enc_index.id(BlockKind::Info);
        if index_id.equals(&root_id) {
            return Err(VaultError::CorruptId);
        }
        let ghost m1 = provider@;
        if !provider.contains(&index_id) {
            writes.push(BlockWrite { id: index_id, data: enc_index.to_vec() });
        }
        provider.add_block(&index_id, &enc_index, index_block);
        proof {
            lemma_closed_after_insert(m1, index_id@, index_info.bytes_v());
        }

        // the vault block referencing both
        let vault_block = InfoBlock::new_vault(&root_id, &index_id);
        let vault_info = match vault_block.info() {
            Ok(i) => i,
            Err(e) => {
                proof {
                    assert(false);
                }
                return Err(e);
            },
        };
        let enc_vault = EncryptedBlock::encrypt(&vault_block, 0);
        let vault_id = enc_vault.id(BlockKind::Info);
        if vault_id.equals(&root_id) || vault_id.equals(&index_id) {
            return Err(VaultError::CorruptId);
        }
        let ghost m2 = provider@;
        if !provider.contains(&vault_id) {
            writes.push(BlockWrite { id: vault_id, data: enc_vault.to_vec() });
        }
        provider.add_block(&vault_id, &enc_vault, vault_block);
        proof {
            lemma_closed_after_insert(m2, vault_id@, vault_info.bytes_v());
        }

        proof {
            assert forall|k: Seq<u8>| provider@.contains_key(k) implies exists|i: int|
                0 <= i < writes@.len() && (#[trigger] writes@[i]).id@ == k by {
                if k == root_id@ {
                    assert(writes@[0].id@ == k);
                } else if k == index_id@ {
                    assert(writes@[1].id@ == k);
                } else {
                    assert(k == vault_id@);
                    assert(writes@[2].id@ == k);
                }
            }
            assert(writes_cover(provider@, writes@));
        }
        let vault = Vault {
            provider,
            vault: vault_info,
            root: root_info,
            root_id,
            index_id,
            index: index_info,
        };
        Ok((vault, CommitPlan { writes, vault_id }))
    }

    /// Lists the directory the path names: the kind and name of each
    /// child. Resolution walks the components from the root; local
    /// entries stay within their block, block entries switch blocks.
    pub fn list(&self, path: &VaultPath) -> (r: Result<Vec<(NodeKind, Vec<u8>)>, VaultError>)
        requires
            self.wf(),
        ensures
            ({
                let w = spec_walk(self.store(), self.root_id_v(), 0, path.components_v());
                match r {
                    Ok(v) => w matches Some(t) && spec_listable(self.store(), t.0, t.1) && ({
                        let ns = spec_decode(self.store()[t.0]).unwrap();
                        let es = ns[t.1]->Directory_0;
                        &&& v@.len() == es.len()
                        &&& forall|k: int| 0 <= k < es.len() ==> {
                            &&& (match (#[trigger] es[k]).id {
                                IdView::Local(l) => (l as int) < ns.len() && v@[k].0
                                    == spec_node_kind(ns[l as int]),
                                _ => false,
                            })
                            &&& v@[k].1@ == es[k].name
                        }
                    }),
                    Err(_) => !(w matches Some(t) && spec_listable(self.store(), t.0, t.1)),
                }
            }),
    {
        let comps = path.components();
        let ghost names = path.components_v();
        let ghost m = self.store();
        let mut cur_id: BlockId = self.root_id;
        let mut cur_idx: u32 = 0;
        let mut ci: usize = 0;
        proof {
            assert(names.skip(0) =~= names);
        }
        while ci < comps.len()
            invariant
                self.wf(),
                m == self.store(),
                names == path.components_v(),
                comps_view(comps@) == names,
                names.len() == comps@.len(),
                0 <= ci <= comps@.len(),
                spec_walk(m, self.root_id_v(), 0, names) == spec_walk(
                    m,
                    cur_id@,
                    cur_idx as int,
                    names.skip(ci as int),
                ),
            decreases comps@.len() - ci,
        {
            let ghost rest = names.skip(ci as int);
            proof {
                assert(rest[0] == names[ci as int]);
                assert(names[ci as int] == comps@[ci as int]@);
                assert(rest.skip(1) =~= names.skip(ci + 1));
            }
            let name = &comps[ci];
            let block = match self.provider.get_block(&cur_id) {
                Ok(b) => b,
                Err(e) => {
                    return Err(e);
                },
            };
            let info = match block.info() {
                Ok(i) => i,
                Err(e) => {
                    return Err(e);
                },
            };
            match info.directory_get_entry_block_id_and_node_index_raw(cur_idx, name.as_slice()) {
                Ok(Some(found)) => match found {
                    (Some(bid), nidx) => {
                        cur_id = bid;
                        cur_idx = nidx;
                    },
                    (None, nidx) => {
                        cur_idx = nidx;
                    },
                },
                Ok(None) => {
                    return Err(VaultError::PathNotFound);
                },
                Err(e) => {
                    return Err(e);
                },
            }
            ci += 1;
        }
        proof {
            assert(names.skip(names.len() as int) =~= Seq::<Seq<u8>>::empty());
        }
        let block = match self.provider.get_block(&cur_id) {
            Ok(b) => b,
            Err(e) => {
                return Err(e);
            },
        };
        let info = match block.info() {
            Ok(i) => i,
            Err(e) => {
                return Err(e);
            },
        };
        match info.directory_list(cur_idx) {
            Ok(v) => Ok(v),
            Err(e) => Err(e),
        }
    }

    /// Ensures every directory along the path exists, creating the
    /// missing ones inline, and commits a new root: each edited ancestor
    /// becomes a new block, parents are rewritten after their child's new
    /// id is known, and a fresh vault block references the new root.
    ///
    /// `Ok(Some(plan))` carries the block writes and the new vault id;
    /// the caller persists the writes, then the pointer. `Ok(None)` means
    /// the whole path already existed and nothing changed at all. On an
    /// error the vault keeps its previous root; orphan blocks may remain.
    pub fn create_directory(&mut self, path: &VaultPath) -> (r: Result<
        Option<CommitPlan>,
        VaultError,
    >)
        requires
            old(self).wf(),
        ensures
            final(self).wf(),
            final(self).index_id_v() == old(self).index_id_v(),
            (r matches Ok(opt) && opt is None) ==> spec_walk(
                old(self).store(),
                old(self).root_id_v(),
                0,
                path.components_v(),
            ) is Some,
            spec_walk(old(self).store(), old(self).root_id_v(), 0, path.components_v()) is Some
                ==> !(r matches Ok(opt2) && opt2 is Some),
            (spec_walk(old(self).store(), old(self).root_id_v(), 0, path.components_v()) matches
            Some(t) && old(self).store().contains_key(t.0)) ==> (r matches Ok(opt3) && opt3
                is None),
            match r {
                Ok(opt) => match opt {
                    Option::None => *final(self) == *old(self),
                    Option::Some(plan) => {
                        &&& final(self).store().contains_key(plan.vault_id@)
                        &&& spec_decode(final(self).store()[plan.vault_id@]) == Some(
                            final(self).vault_nodes(),
                        )
                        &&& final(self).vault_nodes() == seq![
                            NodeView::Vault(
                                IdView::Block(final(self).root_id_v()),
                                IdView::Block(final(self).index_id_v()),
                            ),
                        ]
                        &&& writes_stored(final(self).store(), plan.writes@)
                        &&& grew_by(old(self).store(), final(self).store(), plan.writes@)
                        &&& submap_of(old(self).store(), final(self).store())
                    },
                },
                Err(_) => {
                    &&& final(self).root_id_v() == old(self).root_id_v()
                    &&& final(self).vault_nodes() == old(self).vault_nodes()
                    &&& submap_of(old(self).store(), final(self).store())
                },
            },
    {
        let ghost m_old = self.store();
        let comps = path.components();
        let ghost names = path.components_v();
        let ghost mut cur_gid: Seq<u8> = self.root_id@;

        // forward pass: resolve each component, creating what is missing
        let mut blocks: Vec<Option<Block>> = Vec::new();
        blocks.push(Some(self.root.block()));
        let mut node_indexes: Vec<u32> = Vec::new();
        node_indexes.push(0);
        let mut created_anything = false;

        let mut ci: usize = 0;
        proof {
            assert(names.skip(0) =~= names);
        }
        while ci < comps.len()
            invariant
                self.wf(),
                *self == *old(self),
                m_old == self.store(),
                names == path.components_v(),
                comps_view(comps@) == names,
                names.len() == comps@.len(),
                blocks@.len() == node_indexes@.len(),
                blocks@.len() == ci + 1,
                blocks@[0] is Some,
                stack_ok(self.store(), blocks@),
                forall|j: int| 0 <= j < node_indexes@.len()
                    ==> (#[trigger] node_indexes@[j]) <= 0xFFFF,
                spec_decode(blocks@[0].unwrap()@) matches Some(rns) && rns.len() > 0 && rns[0]
                    is Directory,
                0 <= ci <= comps@.len(),
                !created_anything ==> ({
                    let nj = last_some_idx(blocks@);
                    &&& 0 <= nj < blocks@.len()
                    &&& blocks@[nj] is Some
                    &&& m_old.contains_key(cur_gid)
                    &&& m_old[cur_gid] == blocks@[nj].unwrap()@
                    &&& spec_walk(m_old, self.root_id@, 0, names) == spec_walk(
                        m_old,
                        cur_gid,
                        node_indexes@.last() as int,
                        names.skip(ci as int),
                    )
                }),
                created_anything ==> spec_walk(m_old, self.root_id@, 0, names) is None,
            decreases comps@.len() - ci,
        {
            let ghost rest = names.skip(ci as int);
            proof {
                assert(rest[0] == names[ci as int]);
                assert(names[ci as int] == comps@[ci as int]@);
                assert(rest.skip(1) =~= names.skip(ci + 1));
            }
            let bi = nearest_some(&blocks);
            let block = match &blocks[bi] {
                Some(b) => b.clone(),
                None => {
                    proof {
                        assert(false);
                    }
                    return Err(VaultError::MissingBlock);
                },
            };
            let info = match block.info() {
                Ok(x) => x,
                Err(e) => {
                    proof {
                        if !created_anything {
                            // the stored block does not decode, so the walk fails here
                            assert(spec_walk(m_old, cur_gid, node_indexes@.last() as int, rest)
                                is None);
                        }
                    }
                    return Err(e);
                },
            };
            let node_index = node_indexes[node_indexes.len() - 1];
            let name = &comps[ci];
            match info.directory_get_entry_block_id_and_node_index_raw(
                node_index,
                name.as_slice(),
            ) {
                Ok(Some(found)) => match found {
                    (Some(block_id), nidx) => {
                        let fetched = match self.provider.get_block(&block_id) {
                            Ok(b) => b,
                            Err(e) => {
                                proof {
                                    if !created_anything {
                                        if rest.skip(1).len() > 0 {
                                            // the next step consults the missing block
                                            assert(spec_walk(m_old, block_id@, 0, rest.skip(1))
                                                is None);
                                        } else {
                                            // the walk ends exactly at the missing block
                                            assert(spec_walk(
                                                m_old,
                                                cur_gid,
                                                node_indexes@.last() as int,
                                                rest,
                                            ) == Some((block_id@, 0int)));
                                        }
                                    }
                                }
                                return Err(e);
                            },
                        };
                        proof {
                            if !created_anything {
                                cur_gid = block_id@;
                            }
                        }
                        blocks.push(Some(fetched));
                        node_indexes.push(nidx);
                        proof {
                            assert(blocks@.last() is Some);
                            assert(last_some_idx(blocks@) == blocks@.len() - 1);
                        }
                        proof {
                            assert forall|j: int|
                                0 <= j < blocks@.len() && (#[trigger] blocks@[j]) is Some implies
                                forall|b: Seq<u8>| #[trigger] decoded_refers(
                                    blocks@[j].unwrap()@,
                                    b,
                                ) ==> self.store().contains_key(b) by {
                                if j < blocks@.len() - 1 {
                                    assert(blocks@[j] == old_seq_opt(blocks@)[j]);
                                }
                            }
                        }
                    },
                    (None, nidx) => {
                        let ghost pre = blocks@;
                        blocks.push(None);
                        node_indexes.push(nidx);
                        proof {
                            assert(blocks@.last() is None);
                            assert(blocks@.drop_last() =~= pre);
                            assert(last_some_idx(blocks@) == last_some_idx(pre));
                            if !created_anything {
                                let nj = last_some_idx(pre);
                                assert(blocks@[nj] == pre[nj]);
                            }
                        }
                    },
                },
                Ok(None) => {
                    let created = match info.directory_create_local_node_raw(
                        node_index,
                        name.as_slice(),
                        NodeKind::Directory,
                    ) {
                        Ok(p) => p,
                        Err(e) => {
                            return Err(e);
                        },
                    };
                    let (new_block, entry_node_index) = created;
                    proof {
                        assert forall|b: Seq<u8>| #[trigger] decoded_refers(new_block@, b)
                            implies self.store().contains_key(b) by {
                            lemma_refs_create_local(
                                info.nodes_v(),
                                node_index as int,
                                name@,
                                NodeKind::Directory,
                                b,
                            );
                            assert(decoded_refers(block@, b));
                        }
                    }
                    proof {
                        if !created_anything {
                            // the name is absent here, so the whole walk fails
                            assert(spec_walk(m_old, cur_gid, node_indexes@.last() as int, rest)
                                is None);
                        }
                    }
                    blocks.set(bi, Some(new_block));
                    blocks.push(None);
                    node_indexes.push(entry_node_index);
                    created_anything = true;
                    proof {
                        assert forall|j: int|
                            0 <= j < blocks@.len() && (#[trigger] blocks@[j]) is Some implies
                            forall|b: Seq<u8>| #[trigger] decoded_refers(blocks@[j].unwrap()@, b)
                                ==> self.store().contains_key(b) by {}
                    }
                },
                Err(e) => {
                    proof {
                        if !created_anything {
                            // a malformed shape or a shard entry fails the walk here
                            assert(spec_walk(m_old, cur_gid, node_indexes@.last() as int, rest)
                                is None);
                        }
                    }
                    return Err(e);
                },
            }
            ci += 1;
        }
        if !created_anything {
            proof {
                assert(names.skip(names.len() as int) =~= Seq::<Seq<u8>>::empty());
            }
            return Ok(None);
        }

        // backtrack: rewrite each ancestor's reference to its child's new
        // id, then encrypt and store the ancestor itself
        let mut writes: Vec<BlockWrite> = Vec::new();
        let mut entry_block: Option<Block> = None;
        let mut entry_block_id: Option<BlockId> = None;
        let mut have_pending: bool = false;
        let mut pending_node_index: u16 = 0;
        let mut pending_name: Vec<u8> = Vec::new();
        let mut i: usize = blocks.len();
        while i > 0
            invariant
                names == path.components_v(),
                spec_walk(m_old, old(self).root_id_v(), 0, names) is None,
                blocks@.len() == node_indexes@.len(),
                blocks@.len() == comps@.len() + 1,
                blocks@.len() >= 1,
                blocks@[0] is Some,
                0 <= i <= blocks@.len(),
                forall|j: int| 0 <= j < node_indexes@.len()
                    ==> (#[trigger] node_indexes@[j]) <= 0xFFFF,
                self.provider.wf(),
                provider_closed(self.store()),
                submap_of(m_old, self.store()),
                stack_ok(self.store(), blocks@.take(i as int)),
                spec_decode(blocks@[0].unwrap()@) matches Some(rns) && rns.len() > 0 && rns[0]
                    is Directory,
                (entry_block is Some) == (entry_block_id is Some),
                entry_block_id matches Some(bid) ==> self.store().contains_key(bid@) && (
                entry_block matches Some(eb) && self.store()[bid@] == eb@),
                i == 0 ==> entry_block_id is Some,
                i == 0 ==> (entry_block matches Some(eb) && spec_decode(eb@) matches Some(rns)
                    && rns.len() > 0 && rns[0] is Directory),
                writes_stored(self.store(), writes@),
                grew_by(m_old, self.store(), writes@),
                self.vault == old(self).vault,
                self.root == old(self).root,
                self.root_id == old(self).root_id,
                self.index_id == old(self).index_id,
                self.index == old(self).index,
                m_old == old(self).store(),
                old(self).wf(),
            decreases i,
        {
            i -= 1;
            let node_index = node_indexes[i];
            match &blocks[i] {
                Some(b) => {
                    let mut block = b.clone();
                    proof {
                        assert(blocks@.take(i + 1)[i as int] == blocks@[i as int]);
                    }
                    if have_pending {
                        let info = match block.info() {
                            Ok(x) => x,
                            Err(e) => {
                                return Err(e);
                            },
                        };
                        let idref: Option<&BlockId> = match &entry_block_id {
                            Some(x) => Some(x),
                            None => None,
                        };
                        match info.directory_set_entry_block_id_and_node_index_raw(
                            node_index,
                            pending_name.as_slice(),
                            idref,
                            pending_node_index,
                        ) {
                            Ok(Some(nb)) => {
                                proof {
                                    let ns = info.nodes_v();
                                    let es = ns[node_index as int]->Directory_0;
                                    let f = spec_find_entry(es, pending_name@);
                                    let want = (match idref {
                                        Some(x) => IdView::Block(x@),
                                        None => IdView::Local(pending_node_index),
                                    });
                                    crate::info::lemma_find_entry_range(es, pending_name@);
                                    assert forall|b: Seq<u8>| #[trigger] decoded_refers(nb@, b)
                                        implies self.store().contains_key(b) by {
                                        lemma_refs_set_entry(
                                            ns,
                                            node_index as int,
                                            f.unwrap(),
                                            want,
                                            b,
                                        );
                                        if want == IdView::Block(b) {
                                        } else {
                                            assert(decoded_refers(block@, b));
                                        }
                                    }
                                }
                                block = nb;
                            },
                            Ok(None) => {},
                            Err(e) => {
                                return Err(e);
                            },
                        }
                    }
                    let bsize = block.size();
                    if bsize > (MAX_BLOCK_SIZE as usize) {
                        return Err(VaultError::InvalidValue);
                    }
                    if !BlockSize::valid(bsize as u32) {
                        return Err(VaultError::InvalidValue);
                    }
                    let encrypted = EncryptedBlock::encrypt(&block, 0);
                    let bid = encrypted.id(BlockKind::Info);
                    let ghost m_before = self.store();
                    let ghost ws_before = writes@;
                    if self.provider.contains(&bid) {
                        let existing = match self.provider.get_block(&bid) {
                            Ok(x) => x,
                            Err(_) => {
                                return Err(VaultError::MissingBlock);
                            },
                        };
                        let ev = existing.to_vec();
                        let bv = block.to_vec();
                        if !bytes_equal(ev.as_slice(), bv.as_slice()) {
                            return Err(VaultError::CorruptId);
                        }
                    } else {
                        writes.push(BlockWrite { id: bid, data: encrypted.to_vec() });
                    }
                    let stored = self.provider.add_block(&bid, &encrypted, block);
                    proof {
                        lemma_closed_after_insert(m_before, bid@, stored@);
                        assert forall|j: int|
                            0 <= j < blocks@.take(i as int).len() && (#[trigger] blocks@.take(
                                i as int,
                            )[j]) is Some implies forall|b: Seq<u8>| #[trigger] decoded_refers(
                            blocks@.take(i as int)[j].unwrap()@,
                            b,
                        ) ==> self.store().contains_key(b) by {
                            assert(blocks@.take(i as int)[j] == blocks@.take(i + 1)[j]);
                        }
                        assert forall|k: Seq<u8>| #[trigger] self.store().contains_key(k)
                            implies m_old.contains_key(k) || exists|i2: int|
                            0 <= i2 < writes@.len() && (#[trigger] writes@[i2]).id@ == k by {
                            if m_before.contains_key(k) {
                                if !m_old.contains_key(k) {
                                    let i2 = choose|i2: int|
                                        0 <= i2 < ws_before.len()
                                            && (#[trigger] ws_before[i2]).id@ == k;
                                    assert(writes@[i2].id@ == k);
                                }
                            } else {
                                assert(k == bid@);
                                assert(writes@[writes@.len() - 1].id@ == k);
                            }
                        }
                        assert(grew_by(m_old, self.store(), writes@));
                        assert forall|i2: int| 0 <= i2 < writes@.len() implies
                            self.store().contains_key((#[trigger] writes@[i2]).id@)
                                && self.store()[writes@[i2].id@] == writes@[i2].data@ by {
                            if i2 < ws_before.len() {
                                assert(writes@[i2] == ws_before[i2]);
                            }
                        }
                        assert(writes_stored(self.store(), writes@));
                        if i == 0 {
                            assert(spec_decode(stored@) matches Some(rns) && rns.len() > 0
                                && rns[0] is Directory);
                        }
                    }
                    entry_block = Some(stored);
                    entry_block_id = Some(bid);
                },
                None => {
                    entry_block = None;
                    entry_block_id = None;
                    proof {
                        assert(blocks@.take(i + 1)[i as int] == blocks@[i as int]);
                        assert(i >= 1);
                        assert forall|j: int|
                            0 <= j < blocks@.take(i as int).len() && (#[trigger] blocks@.take(
                                i as int,
                            )[j]) is Some implies forall|b: Seq<u8>| #[trigger] decoded_refers(
                            blocks@.take(i as int)[j].unwrap()@,
                            b,
                        ) ==> self.store().contains_key(b) by {
                            assert(blocks@.take(i as int)[j] == blocks@.take(i + 1)[j]);
                        }
                    }
                },
            }
            have_pending = true;
            pending_node_index = (node_indexes[i] as u16);
            if i >= 1 {
                pending_name = slice_to_vec(comps[i - 1].as_slice());
            }
        }

        // commit: a fresh vault block referencing the new root
        let new_root_id = match entry_block_id {
            Some(x) => x,
            None => {
                proof {
                    assert(false);
                }
                return Err(VaultError::MissingBlock);
            },
        };
        let new_root_block = match entry_block {
            Some(x) => x,
            None => {
                proof {
                    assert(false);
                }
                return Err(VaultError::MissingBlock);
            },
        };
        proof {
            let ns2 = spec_with_root(self.vault.nodes_v(), new_root_id@);
            assert(ns2 =~~= seq![
                NodeView::Vault(IdView::Block(new_root_id@), IdView::Block(self.index_id@)),
            ]);
            lemma_small_content_vault(ns2);
        }
        let vault_block = match self.vault.update_root_id(&new_root_id) {
            Ok(b) => b,
            Err(e) => {
                proof {
                    assert(false);
                }
                return Err(e);
            },
        };
        let enc_vault = EncryptedBlock::encrypt(&vault_block, 0);
        let vault_id = enc_vault.id(BlockKind::Info);
        let ghost m_before = self.store();
        let ghost ws_before = writes@;
        if self.provider.contains(&vault_id) {
            let existing = match self.provider.get_block(&vault_id) {
                Ok(x) => x,
                Err(_) => {
                    return Err(VaultError::MissingBlock);
                },
            };
            let ev = existing.to_vec();
            let bv = vault_block.to_vec();
            if !bytes_equal(ev.as_slice(), bv.as_slice()) {
                return Err(VaultError::CorruptId);
            }
        } else {
            writes.push(BlockWrite { id: vault_id, data: enc_vault.to_vec() });
        }
        let stored_vault = self.provider.add_block(&vault_id, &enc_vault, vault_block);
        proof {
            assert forall|b: Seq<u8>| #[trigger] decoded_refers(stored_vault@, b)
                implies m_before.contains_key(b) || b == vault_id@ by {
                let ns2 = spec_with_root(self.vault.nodes_v(), new_root_id@);
                let i0 = choose|i0: int| 0 <= i0 < ns2.len() && node_refers(#[trigger] ns2[i0], b);
                assert(b == new_root_id@ || b == self.index_id@);
            }
            lemma_closed_after_insert(m_before, vault_id@, stored_vault@);
            assert forall|k: Seq<u8>| #[trigger] self.store().contains_key(k)
                implies m_old.contains_key(k) || exists|i2: int|
                0 <= i2 < writes@.len() && (#[trigger] writes@[i2]).id@ == k by {
                if m_before.contains_key(k) {
                    if !m_old.contains_key(k) {
                        let i2 = choose|i2: int|
                            0 <= i2 < ws_before.len() && (#[trigger] ws_before[i2]).id@ == k;
                        assert(writes@[i2].id@ == k);
                    }
                } else {
                    assert(k == vault_id@);
                    assert(writes@[writes@.len() - 1].id@ == k);
                }
            }
            assert(grew_by(m_old, self.store(), writes@));
            assert forall|i2: int| 0 <= i2 < writes@.len() implies self.store().contains_key(
                (#[trigger] writes@[i2]).id@,
            ) && self.store()[writes@[i2].id@] == writes@[i2].data@ by {
                if i2 < ws_before.len() {
                    assert(writes@[i2] == ws_before[i2]);
                }
            }
            assert(writes_stored(self.store(), writes@));
        }
        let new_root_info = match new_root_block.info() {
            Ok(x) => x,
            Err(_) => {
                proof {
                    assert(false);
                }
                return Err(VaultError::MalformedBlock);
            },
        };
        let new_vault_info = match stored_vault.info() {
            Ok(x) => x,
            Err(_) => {
                proof {
                    assert(false);
                }
                return Err(VaultError::MalformedBlock);
            },
        };
        self.root = new_root_info;
        self.root_id = new_root_id;
        self.vault = new_vault_info;
        proof {
            assert(self.vault.nodes_v() =~~= seq![
                NodeView::Vault(IdView::Block(self.root_id@), IdView::Block(self.index_id@)),
            ]);
            assert(submap_of(m_old, self.store()));
        }
        Ok(Some(CommitPlan { writes, vault_id }))
    }

    /// The first block id that resolving the path would need and the
    /// store does not hold, if any. The surrounding program loads that
    /// block with `load_block_from_file` and retries; `None` means a
    /// retry would not help (the path resolves, or fails for another
    /// reason than a missing block).
    pub fn unresolved_block(&self, path: &VaultPath) -> (r: Option<BlockId>)
        requires
            self.wf(),
        ensures
            match r {
                Some(b) => {
                    &&& spec_walk_missing(
                        self.store(),
                        self.root_id_v(),
                        0,
                        path.components_v(),
                    ) == Some(b@)
                    &&& !self.store().contains_key(b@)
                },
                None => spec_walk_missing(
                    self.store(),
                    self.root_id_v(),
                    0,
                    path.components_v(),
                ) is None,
            },
    {
        let comps = path.components();
        let ghost names = path.components_v();
        let ghost m = self.store();
        let mut cur_id: BlockId = self.root_id;
        let mut cur_idx: u32 = 0;
        let mut ci: usize = 0;
        proof {
            assert(names.skip(0) =~= names);
        }
        while ci < comps.len()
            invariant
                self.wf(),
                m == self.store(),
                names == path.components_v(),
                comps_view(comps@) == names,
                names.len() == comps@.len(),
                0 <= ci <= comps@.len(),
                spec_walk_missing(m, self.root_id_v(), 0, names) == spec_walk_missing(
                    m,
                    cur_id@,
                    cur_idx as int,
                    names.skip(ci as int),
                ),
            decreases comps@.len() - ci,
        {
            let ghost rest = names.skip(ci as int);
            proof {
                assert(rest[0] == names[ci as int]);
                assert(names[ci as int] == comps@[ci as int]@);
                assert(rest.skip(1) =~= names.skip(ci + 1));
            }
            let name = &comps[ci];
            let block = match self.provider.get_block(&cur_id) {
                Ok(b) => b,
                Err(_) => {
                    return Some(cur_id);
                },
            };
            let info = match block.info() {
                Ok(i) => i,
                Err(_) => {
                    return None;
                },
            };
            match info.directory_get_entry_block_id_and_node_index_raw(cur_idx, name.as_slice()) {
                Ok(Some(found)) => match found {
                    (Some(bid), nidx) => {
                        cur_id = bid;
                        cur_idx = nidx;
                    },
                    (None, nidx) => {
                        cur_idx = nidx;
                    },
                },
                Ok(None) => {
                    return None;
                },
                Err(_) => {
                    return None;
                },
            }
            ci += 1;
        }
        proof {
            assert(names.skip(names.len() as int) =~= Seq::<Seq<u8>>::empty());
        }
        if self.provider.contains(&cur_id) {
            None
        } else {
            Some(cur_id)
        }
    }

    /// Decrypts bytes read back from a block file and stores the block,
    /// so that resolution can continue past a block-referenced entry.
    ///
    /// The block is admitted only when everything it references is
    /// already stored, which keeps the store closed; bytes that do not
    /// decode, or that disagree with what the id already names, are
    /// refused.
    pub fn load_block_from_file(&mut self, id: &BlockId, data: bytes::Bytes, key: u128) -> (r:
        Result<(), VaultError>)
        requires
            old(self).wf(),
        ensures
            final(self).wf(),
            final(self).root_id_v() == old(self).root_id_v(),
            final(self).index_id_v() == old(self).index_id_v(),
            final(self).root_nodes() == old(self).root_nodes(),
            final(self).vault_nodes() == old(self).vault_nodes(),
            match r {
                Ok(u) => final(self).store() == old(self).store().insert(
                    id@,
                    crate::block::bytes_content(data),
                ),
                Err(e) => {
                    &&& *final(self) == *old(self)
                    &&& ({
                        let content = crate::block::bytes_content(data);
                        ||| (e == VaultError::CorruptId && old(self).store().contains_key(id@)
                            && old(self).store()[id@] != content)
                        ||| (e == VaultError::MalformedBlock && !old(self).store().contains_key(
                            id@,
                        ) && spec_decode(content) is None)
                        ||| (e == VaultError::MissingBlock && !old(self).store().contains_key(id@)
                            && exists|b: Seq<u8>| #[trigger] decoded_refers(content, b)
                            && !old(self).store().contains_key(b))
                    })
                },
            },
    {
        let ghost content = crate::block::bytes_content(data);
        let enc = EncryptedBlock::from_data(data);
        let block = enc.decrypt(key);
        if self.provider.contains(id) {
            let existing = match self.provider.get_block(id) {
                Ok(x) => x,
                Err(_) => {
                    proof {
                        assert(false);
                    }
                    return Err(VaultError::MissingBlock);
                },
            };
            let ev = existing.to_vec();
            let bv = block.to_vec();
            if bytes_equal(ev.as_slice(), bv.as_slice()) {
                proof {
                    assert(self.store().insert(id@, content) =~= self.store());
                }
                return Ok(());
            }
            return Err(VaultError::CorruptId);
        }
        let v = block.to_vec();
        let nodes = match crate::codec::decode_block(&v) {
            Ok(ns) => ns,
            Err(_) => {
                return Err(VaultError::MalformedBlock);
            },
        };
        let ghost ns = crate::codec::nodes_view(nodes@);
        let mut i: usize = 0;
        while i < nodes.len()
            invariant
                old(self).wf(),
                *self == *old(self),
                self.provider.wf(),
                ns == crate::codec::nodes_view(nodes@),
                ns.len() == nodes@.len(),
                content == crate::block::bytes_content(data),
                spec_decode(content) == Some(ns),
                !self.store().contains_key(id@),
                0 <= i <= nodes@.len(),
                forall|q: int| 0 <= q < i ==> forall|b: Seq<u8>| node_refers(
                    #[trigger] ns[q],
                    b,
                ) ==> self.store().contains_key(b),
            decreases nodes@.len() - i,
        {
            match &nodes[i] {
                Node::Directory { entries } => {
                    let ghost es = crate::codec::entries_view(entries@);
                    proof {
                        assert(ns[i as int] == NodeView::Directory(es));
                    }
                    let mut j: usize = 0;
                    while j < entries.len()
                        invariant
                            old(self).wf(),
                            *self == *old(self),
                            self.provider.wf(),
                            content == crate::block::bytes_content(data),
                            spec_decode(content) == Some(ns),
                            !self.store().contains_key(id@),
                            0 <= i < ns.len(),
                            es == crate::codec::entries_view(entries@),
                            es.len() == entries@.len(),
                            ns[i as int] == NodeView::Directory(es),
                            0 <= j <= entries@.len(),
                            forall|q: int| 0 <= q < j ==> (match (#[trigger] es[q]).id {
                                IdView::Block(b) => self.store().contains_key(b),
                                _ => true,
                            }),
                        decreases entries@.len() - j,
                    {
                        if !ref_stored(&self.provider, &entries[j].id) {
                            proof {
                                let b = entries@[j as int]@.id->Block_0;
                                assert(es[j as int].id == IdView::Block(b));
                                assert(node_refers(ns[i as int], b));
                                assert(spec_refers(ns, b));
                                assert(decoded_refers(content, b));
                                assert(!old(self).store().contains_key(b));
                                assert(exists|b2: Seq<u8>| #[trigger] decoded_refers(content, b2)
                                    && !old(self).store().contains_key(b2));
                            }
                            return Err(VaultError::MissingBlock);
                        }
                        j += 1;
                    }
                    proof {
                        assert forall|b: Seq<u8>| node_refers(ns[i as int], b)
                            implies self.store().contains_key(b) by {
                            let q = choose|q: int|
                                0 <= q < es.len() && (#[trigger] es[q]).id == IdView::Block(b);
                            assert(0 <= q < es.len() && es[q].id == IdView::Block(b));
                        }
                    }
                },
                Node::File { id: fid, .. } => {
                    if !ref_stored(&self.provider, fid) {
                        proof {
                            let b = fid@->Block_0;
                            assert(node_refers(ns[i as int], b));
                            assert(spec_refers(ns, b));
                            assert(decoded_refers(content, b));
                            assert(!old(self).store().contains_key(b));
                            assert(exists|b2: Seq<u8>| #[trigger] decoded_refers(content, b2)
                                && !old(self).store().contains_key(b2));
                        }
                        return Err(VaultError::MissingBlock);
                    }
                },
                Node::Vault { root, index } => {
                    if !ref_stored(&self.provider, root) {
                        proof {
                            let b = root@->Block_0;
                            assert(node_refers(ns[i as int], b));
                            assert(spec_refers(ns, b));
                            assert(decoded_refers(content, b));
                            assert(!old(self).store().contains_key(b));
                            assert(exists|b2: Seq<u8>| #[trigger] decoded_refers(content, b2)
                                && !old(self).store().contains_key(b2));
                        }
                        return Err(VaultError::MissingBlock);
                    }
                    if !ref_stored(&self.provider, index) {
                        proof {
                            let b = index@->Block_0;
                            assert(node_refers(ns[i as int], b));
                            assert(spec_refers(ns, b));
                            assert(decoded_refers(content, b));
                            assert(!old(self).store().contains_key(b));
                            assert(exists|b2: Seq<u8>| #[trigger] decoded_refers(content, b2)
                                && !old(self).store().contains_key(b2));
                        }
                        return Err(VaultError::MissingBlock);
                    }
                },
            }
            i += 1;
        }
        let ghost m_before = self.store();
        self.provider.add_block(id, &enc, block);
        proof {
            assert forall|b: Seq<u8>| #[trigger] decoded_refers(content, b)
                implies m_before.contains_key(b) || b == id@ by {
                let q = choose|q: int| 0 <= q < ns.len() && node_refers(#[trigger] ns[q], b);
                assert(0 <= q < ns.len() && node_refers(ns[q], b));
            }
            lemma_closed_after_insert(m_before, id@, content);
        }
        Ok(())
    }

    /// Storing a file is reserved for a future version.
    pub fn put(&mut self, _name: &str) -> (r: Result<File, VaultError>)
        ensures
            r matches Err(e) && e == VaultError::Unimplemented,
            *final(self) == *old(self),
    {
        Err(VaultError::Unimplemented)
    }

    /// Reading a file back is reserved for a future version; nothing is
    /// ever found.
    pub fn get(&self, _name: &str) -> (r: Option<File>)
        ensures
            r is None,
    {
        None
    }
}

/// Every listed write is stored, with exactly its data.
pub open spec fn writes_stored(m: Map<Seq<u8>, Seq<u8>>, ws: Seq<BlockWrite>) -> bool {
    forall|i: int| 0 <= i < ws.len() ==> m.contains_key((#[trigger] ws[i]).id@) && m[ws[i].id@]
        == ws[i].data@
}

/// The store grew only by the listed writes.
pub open spec fn grew_by(
    m_old: Map<Seq<u8>, Seq<u8>>,
    m_new: Map<Seq<u8>, Seq<u8>>,
    ws: Seq<BlockWrite>,
) -> bool {
    forall|k: Seq<u8>| #[trigger] m_new.contains_key(k) ==> m_old.contains_key(k) || exists|i: int|
        0 <= i < ws.len() && (#[trigger] ws[i]).id@ == k
}

/// The old store is contained in the new one, value for value.
pub open spec fn submap_of(m_old: Map<Seq<u8>, Seq<u8>>, m_new: Map<Seq<u8>, Seq<u8>>) -> bool {
    forall|k: Seq<u8>| #[trigger] m_old.contains_key(k) ==> m_new.contains_key(k) && m_new[k]
        == m_old[k]
}

/// Every block a stacked frame references is stored.
spec fn stack_ok(m: Map<Seq<u8>, Seq<u8>>, bs: Seq<Option<Block>>) -> bool {
    forall|j: int| 0 <= j < bs.len() && (#[trigger] bs[j]) is Some ==> forall|b: Seq<u8>|
        #[trigger] decoded_refers(bs[j].unwrap()@, b) ==> m.contains_key(b)
}

/// Creating an inline node adds no global block reference.
proof fn lemma_refs_create_local(
    ns: Seq<NodeView>,
    idx: int,
    name: Seq<u8>,
    kind: NodeKind,
    b: Seq<u8>,
)
    requires
        0 <= idx < ns.len(),
        ns[idx] is Directory,
        spec_refers(spec_create_local(ns, idx, name, kind), b),
    ensures
        spec_refers(ns, b),
{
    let ns2 = spec_create_local(ns, idx, name, kind);
    let i = choose|i: int| 0 <= i < ns2.len() && node_refers(#[trigger] ns2[i], b);
    if i == ns.len() {
        assert(ns2[i] == crate::info::spec_new_node(kind));
        match kind {
            NodeKind::Directory => {
                assert(!node_refers(ns2[i], b));
            },
            NodeKind::File => {
                assert(!node_refers(ns2[i], b));
            },
            NodeKind::Vault => {
                assert(!node_refers(ns2[i], b));
            },
        }
    } else if i == idx {
        let es = ns[idx]->Directory_0;
        let es2 = es.push(EntryView { name, id: IdView::Local(ns.len() as u16) });
        assert(ns2[idx] == NodeView::Directory(es2));
        let j = choose|j: int| 0 <= j < es2.len() && (#[trigger] es2[j]).id == IdView::Block(b);
        if j == es.len() {
            assert(false);
        } else {
            assert(es[j] == es2[j]);
            assert(node_refers(ns[idx], b));
        }
    } else {
        assert(ns2[i] == ns[i]);
        assert(node_refers(ns[i], b));
    }
}

/// Rewriting one entry adds at most the new reference.
proof fn lemma_refs_set_entry(ns: Seq<NodeView>, idx: int, k: int, id: IdView, b: Seq<u8>)
    requires
        0 <= idx < ns.len(),
        ns[idx] is Directory,
        0 <= k < ns[idx]->Directory_0.len(),
        spec_refers(spec_set_entry(ns, idx, k, id), b),
    ensures
        spec_refers(ns, b) || id == IdView::Block(b),
{
    let ns2 = spec_set_entry(ns, idx, k, id);
    let i = choose|i: int| 0 <= i < ns2.len() && node_refers(#[trigger] ns2[i], b);
    if i == idx {
        let es = ns[idx]->Directory_0;
        let es2 = es.update(k, EntryView { name: es[k].name, id });
        assert(ns2[idx] == NodeView::Directory(es2));
        let j = choose|j: int| 0 <= j < es2.len() && (#[trigger] es2[j]).id == IdView::Block(b);
        if j == k {
            assert(id == IdView::Block(b));
        } else {
            assert(es[j] == es2[j]);
            assert(node_refers(ns[idx], b));
        }
    } else {
        assert(ns2[i] == ns[i]);
        assert(node_refers(ns[i], b));
    }
}

/// Whether a reference, if it is a global block id, is stored.
fn ref_stored(p: &Provider, u: &UnionId) -> (r: bool)
    requires
        p.wf(),
    ensures
        r == (match u@ {
            IdView::Block(b) => p@.contains_key(b),
            _ => true,
        }),
{
    match u {
        UnionId::Block(bid) => p.contains(bid),
        _ => true,
    }
}

/// The position of the deepest stacked frame that holds a real block.
spec fn last_some_idx(bs: Seq<Option<Block>>) -> int
    decreases bs.len(),
{
    if bs.len() == 0 {
        -1
    } else if bs.last() is Some {
        bs.len() - 1
    } else {
        last_some_idx(bs.drop_last())
    }
}

/// The deepest stacked frame that still holds a real block.
fn nearest_some(blocks: &Vec<Option<Block>>) -> (r: usize)
    requires
        blocks@.len() > 0,
        blocks@[0] is Some,
    ensures
        (r as int) < blocks@.len(),
        blocks@[r as int] is Some,
        r as int == last_some_idx(blocks@),
{
    let mut i: usize = blocks.len();
    proof {
        assert(blocks@.take(blocks@.len() as int) =~= blocks@);
    }
    while i > 0
        invariant
            1 <= i <= blocks@.len(),
            blocks@.len() > 0,
            blocks@[0] is Some,
            last_some_idx(blocks@.take(i as int)) == last_some_idx(blocks@),
        decreases i,
    {
        i -= 1;
        match &blocks[i] {
            Some(_) => {
                proof {
                    assert(blocks@.take(i + 1).last() == blocks@[i as int]);
                }
                return i;
            },
            None => {},
        }
        proof {
            assert(i >= 1);
            assert(blocks@.take(i + 1).last() == blocks@[i as int]);
            assert(blocks@.take(i + 1).drop_last() =~= blocks@.take(i as int));
        }
    }
    proof {
        assert(false);
    }
    0
}

/// The stacked frames before the last push.
spec fn old_seq_opt(bs: Seq<Option<Block>>) -> Seq<Option<Block>> {
    bs.drop_last()
}

/// A single vault node's content is tiny.
proof fn lemma_small_content_vault(ns: Seq<NodeView>)
    requires
        ns.len() == 1,
        ns[0] matches NodeView::Vault(a, b) && (a matches IdView::Block(x) && x.len() == 32) && (
        b matches IdView::Block(y) && y.len() == 32),
    ensures
        spec_content_bytes(ns).len() <= 100,
{
    vstd::bytes::lemma_auto_spec_u32_to_from_le_bytes();
    assert(ns.skip(1) =~= Seq::<NodeView>::empty());
    assert(spec_nodes_bytes(ns.skip(1)).len() == 0);
    match ns[0] {
        NodeView::Vault(a, b) => {
            assert(spec_id_bytes(a).len() == 33);
            assert(spec_id_bytes(b).len() == 33);
            assert(spec_node_bytes(ns[0]).len() == 67);
        },
        _ => {},
    }
}

/// Inserting a block whose references are already stored keeps the store
/// closed.
proof fn lemma_closed_after_insert(m: Map<Seq<u8>, Seq<u8>>, k: Seq<u8>, v: Seq<u8>)
    requires
        provider_closed(m),
        forall|b: Seq<u8>| #[trigger] decoded_refers(v, b) ==> m.contains_key(b) || b == k,
    ensures
        provider_closed(m.insert(k, v)),
        provider_closed(if m.contains_key(k) {
            m
        } else {
            m.insert(k, v)
        }),
{
    let m2 = m.insert(k, v);
    assert forall|x: Seq<u8>, b: Seq<u8>| m2.contains_key(x) && #[trigger] decoded_refers(
        m2[x],
        b,
    ) implies m2.contains_key(b) by {
        if x == k {
            assert(decoded_refers(v, b));
        } else {
            assert(m.contains_key(x) && decoded_refers(m[x], b));
        }
    }
}

/// The initial root directory's content is tiny.
proof fn lemma_init_root_content(name: Seq<u8>)
    requires
        name.len() <= 100,
    ensures
        spec_content_bytes(
            seq![
                NodeView::Directory(seq![EntryView { name, id: IdView::Local(1) }]),
                NodeView::Directory(Seq::<EntryView>::empty()),
            ],
        ).len() <= 300,
{
    vstd::bytes::lemma_auto_spec_u16_to_from_le_bytes();
    vstd::bytes::lemma_auto_spec_u32_to_from_le_bytes();
    let e = EntryView { name, id: IdView::Local(1) };
    let n0 = NodeView::Directory(seq![e]);
    let n1 = NodeView::Directory(Seq::<EntryView>::empty());
    let ns = seq![n0, n1];
    assert(spec_entries_bytes(Seq::<EntryView>::empty()).len() == 0);
    assert(seq![e].skip(1) =~= Seq::<EntryView>::empty());
    assert(spec_id_bytes(IdView::Local(1)).len() == 3);
    assert(spec_entry_bytes(e).len() == 7 + name.len());
    assert(spec_entries_bytes(seq![e]).len() == 7 + name.len());
    assert(spec_node_bytes(n0).len() == 12 + name.len());
    assert(spec_node_bytes(n1).len() == 5);
    assert(ns.skip(1) =~= seq![n1]);
    assert(seq![n1].skip(1) =~= Seq::<NodeView>::empty());
    assert(spec_nodes_bytes(Seq::<NodeView>::empty()).len() == 0);
    assert(spec_nodes_bytes(seq![n1]).len() == 5);
    assert(spec_nodes_bytes(ns).len() == 17 + name.len());
}

} // verus!
