use vstd::prelude::*;

verus! {

use vstd::bytes::{
    spec_u16_to_le_bytes, spec_u16_from_le_bytes, lemma_auto_spec_u16_to_from_le_bytes,
    spec_u32_to_le_bytes, spec_u32_from_le_bytes, lemma_auto_spec_u32_to_from_le_bytes,
    spec_u64_to_le_bytes, spec_u64_from_le_bytes, lemma_auto_spec_u64_to_from_le_bytes,
    u16_from_le_bytes, u16_to_le_bytes, u32_from_le_bytes, u32_to_le_bytes, u64_from_le_bytes,
    u64_to_le_bytes,
};
use vstd::slice::{slice_subrange, slice_to_vec};
use crate::err::VaultError;
use crate::ids::{
    is_valid_block_size, lemma_marker_bytes_increases, marker_bytes, BlockId, MAX_BLOCK_SIZE,
    MIN_BLOCK_SIZE,
};

broadcast use crate::ids::lemma_block_id_len;

// An info block's plaintext is a single structured message: a count of
// nodes followed by the nodes, zero-padded up to the smallest permitted
// block size. Every number is little-endian; a block id is its 32 raw
// bytes in order.

/// The three node variants of the schema.
#[derive(Clone, Copy, PartialEq, Eq, Structural, Debug)]
pub enum NodeKind {
    /// A directory node holding named entries.
    Directory,
    /// A file node holding a size and a content id.
    File,
    /// A vault node referencing the root directory and the index.
    Vault,
}

/// A reference held by an entry or a node: an index into the containing
/// block's node list, a global block id, or a reserved shard id.
pub enum UnionId {
    /// References a node inside the same info block.
    Local(u16),
    /// References another block globally.
    Block(BlockId),
    /// Reserved; not resolvable in this version.
    Shard(u64),
}

/// A named reference from a directory to another node.
pub struct Entry {
    /// The name, matched byte-exactly on its UTF-8 encoding.
    pub name: Vec<u8>,
    /// What the name refers to.
    pub id: UnionId,
}

/// A node of an info block.
pub enum Node {
    /// A directory: a list of named entries.
    Directory { entries: Vec<Entry> },
    /// A file: its size and the id of its content.
    File { size: u64, id: UnionId },
    /// The vault: the root directory and the index block.
    Vault { root: UnionId, index: UnionId },
}

/// Mathematical form of a `UnionId`.
#[verifier::ext_equal]
pub enum IdView {
    Local(u16),
    Block(Seq<u8>),
    Shard(u64),
}

/// Mathematical form of an `Entry`.
#[verifier::ext_equal]
pub struct EntryView {
    pub name: Seq<u8>,
    pub id: IdView,
}

/// Mathematical form of a `Node`.
#[verifier::ext_equal]
pub enum NodeView {
    Directory(Seq<EntryView>),
    File(u64, IdView),
    Vault(IdView, IdView),
}

impl View for UnionId {
    type V = IdView;

    open spec fn view(&self) -> IdView {
        match self {
            UnionId::Local(k) => IdView::Local(*k),
            UnionId::Block(b) => IdView::Block(b@),
            UnionId::Shard(s) => IdView::Shard(*s),
        }
    }
}

impl View for Entry {
    type V = EntryView;

    open spec fn view(&self) -> EntryView {
        EntryView { name: self.name@, id: self.id@ }
    }
}

impl View for Node {
    type V = NodeView;

    open spec fn view(&self) -> NodeView {
        match self {
            Node::Directory { entries } => NodeView::Directory(
                entries@.map_values(|e: Entry| e@),
            ),
            Node::File { size, id } => NodeView::File(*size, id@),
            Node::Vault { root, index } => NodeView::Vault(root@, index@),
        }
    }
}

/// The view of a node list.
pub open spec fn nodes_view(ns: Seq<Node>) -> Seq<NodeView> {
    ns.map_values(|n: Node| n@)
}

/// The kind of a node.
pub open spec fn spec_node_kind(n: NodeView) -> NodeKind {
    match n {
        NodeView::Directory(_) => NodeKind::Directory,
        NodeView::File(_, _) => NodeKind::File,
        NodeView::Vault(_, _) => NodeKind::Vault,
    }
}

// --- encodability ---

/// An id is encodable when a block reference holds exactly 32 bytes.
pub open spec fn id_wf(id: IdView) -> bool {
    match id {
        IdView::Block(b) => b.len() == 32,
        _ => true,
    }
}

/// An entry is encodable when its name length fits the length field.
pub open spec fn entry_wf(e: EntryView) -> bool {
    &&& e.name.len() <= u32::MAX
    &&& id_wf(e.id)
}

/// A node is encodable when its parts are.
pub open spec fn node_wf(n: NodeView) -> bool {
    match n {
        NodeView::Directory(es) => {
            &&& es.len() <= u32::MAX
            &&& forall|i: int| 0 <= i < es.len() ==> entry_wf(#[trigger] es[i])
        },
        NodeView::File(_, id) => id_wf(id),
        NodeView::Vault(root, index) => id_wf(root) && id_wf(index),
    }
}

/// A node list is encodable when its length fits the count field and
/// every node is encodable.
pub open spec fn nodes_wf(ns: Seq<NodeView>) -> bool {
    &&& ns.len() <= u32::MAX
    &&& forall|i: int| 0 <= i < ns.len() ==> node_wf(#[trigger] ns[i])
}

// --- the encoding, mathematically ---

pub open spec fn spec_id_bytes(id: IdView) -> Seq<u8> {
    match id {
        IdView::Local(k) => seq![0u8] + spec_u16_to_le_bytes(k),
        IdView::Block(b) => seq![1u8] + b,
        IdView::Shard(s) => seq![2u8] + spec_u64_to_le_bytes(s),
    }
}

pub open spec fn spec_entry_bytes(e: EntryView) -> Seq<u8> {
    spec_u32_to_le_bytes(e.name.len() as u32) + e.name + spec_id_bytes(e.id)
}

pub open spec fn spec_entries_bytes(es: Seq<EntryView>) -> Seq<u8>
    decreases es.len(),
{
    if es.len() == 0 {
        Seq::<u8>::empty()
    } else {
        spec_entry_bytes(es[0]) + spec_entries_bytes(es.skip(1))
    }
}

pub open spec fn spec_node_bytes(n: NodeView) -> Seq<u8> {
    match n {
        NodeView::Directory(es) => seq![0u8] + spec_u32_to_le_bytes(es.len() as u32)
            + spec_entries_bytes(es),
        NodeView::File(size, id) => seq![1u8] + spec_u64_to_le_bytes(size) + spec_id_bytes(id),
        NodeView::Vault(root, index) => seq![2u8] + spec_id_bytes(root) + spec_id_bytes(index),
    }
}

pub open spec fn spec_nodes_bytes(ns: Seq<NodeView>) -> Seq<u8>
    decreases ns.len(),
{
    if ns.len() == 0 {
        Seq::<u8>::empty()
    } else {
        spec_node_bytes(ns[0]) + spec_nodes_bytes(ns.skip(1))
    }
}

/// The unpadded content: the node count followed by the nodes.
pub open spec fn spec_content_bytes(ns: Seq<NodeView>) -> Seq<u8> {
    spec_u32_to_le_bytes(ns.len() as u32) + spec_nodes_bytes(ns)
}

/// The smallest permitted block size holding `n` bytes, searched upward
/// from marker `m`; sizes above the largest marker saturate there.
pub open spec fn padded_len_from(n: int, m: int) -> int
    decreases 15 - m,
{
    if m < 0 || m >= 15 {
        marker_bytes(15)
    } else if n <= marker_bytes(m) {
        marker_bytes(m)
    } else {
        padded_len_from(n, m + 1)
    }
}

/// The smallest permitted block size holding `n` content bytes.
pub open spec fn padded_len(n: int) -> int {
    padded_len_from(n, 0)
}

proof fn lemma_padded_len_from(n: int, m: int)
    requires
        0 <= m <= 15,
        n <= MAX_BLOCK_SIZE as int,
    ensures
        ({
            let p = padded_len_from(n, m);
            &&& is_valid_block_size(p)
            &&& n <= p
            &&& marker_bytes(m) <= p
        }),
    decreases 15 - m,
{
    vstd::arithmetic::power2::lemma2_to64();
    if m >= 15 {
        assert(marker_bytes(15) == MAX_BLOCK_SIZE as int);
    } else if n <= marker_bytes(m) {
        assert(is_valid_block_size(marker_bytes(m)));
    } else {
        lemma_padded_len_from(n, m + 1);
        lemma_marker_bytes_increases(m, m + 1);
    }
}

/// The padded length is a permitted block size at least as large as the
/// content.
pub proof fn lemma_padded_len(n: int)
    requires
        n <= MAX_BLOCK_SIZE as int,
    ensures
        is_valid_block_size(padded_len(n)),
        n <= padded_len(n),
        MIN_BLOCK_SIZE as int <= padded_len(n),
{
    lemma_padded_len_from(n, 0);
    vstd::arithmetic::power2::lemma2_to64();
    assert(marker_bytes(0) == MIN_BLOCK_SIZE as int);
}

/// A full block: the content, zero-padded to the smallest permitted size.
pub open spec fn spec_block_bytes(ns: Seq<NodeView>) -> Seq<u8> {
    let c = spec_content_bytes(ns);
    c + Seq::new((padded_len(c.len() as int) - c.len() as int) as nat, |i: int| 0u8)
}

// --- the decoding, mathematically ---

pub open spec fn parse_id(bytes: Seq<u8>, pos: int) -> Option<(IdView, int)> {
    if pos < 0 || pos + 1 > bytes.len() {
        None
    } else if bytes[pos] == 0 {
        if pos + 3 <= bytes.len() {
            Some((IdView::Local(spec_u16_from_le_bytes(bytes.subrange(pos + 1, pos + 3))), pos + 3))
        } else {
            None
        }
    } else if bytes[pos] == 1 {
        if pos + 33 <= bytes.len() {
            Some((IdView::Block(bytes.subrange(pos + 1, pos + 33)), pos + 33))
        } else {
            None
        }
    } else if bytes[pos] == 2 {
        if pos + 9 <= bytes.len() {
            Some((IdView::Shard(spec_u64_from_le_bytes(bytes.subrange(pos + 1, pos + 9))), pos + 9))
        } else {
            None
        }
    } else {
        None
    }
}

pub open spec fn parse_entry(bytes: Seq<u8>, pos: int) -> Option<(EntryView, int)> {
    if pos < 0 || pos + 4 > bytes.len() {
        None
    } else {
        let n = spec_u32_from_le_bytes(bytes.subrange(pos, pos + 4)) as int;
        if pos + 4 + n > bytes.len() {
            None
        } else {
            let name = bytes.subrange(pos + 4, pos + 4 + n);
            match parse_id(bytes, pos + 4 + n) {
                Some((id, p)) => Some((EntryView { name, id }, p)),
                None => None,
            }
        }
    }
}

pub open spec fn parse_entries(bytes: Seq<u8>, pos: int, count: int) -> Option<
    (Seq<EntryView>, int),
>
    decreases count,
{
    if count <= 0 {
        Some((Seq::<EntryView>::empty(), pos))
    } else {
        match parse_entry(bytes, pos) {
            Some((e, p1)) => match parse_entries(bytes, p1, count - 1) {
                Some((es, p2)) => Some((seq![e] + es, p2)),
                None => None,
            },
            None => None,
        }
    }
}

pub open spec fn parse_node(bytes: Seq<u8>, pos: int) -> Option<(NodeView, int)> {
    if pos < 0 || pos + 1 > bytes.len() {
        None
    } else if bytes[pos] == 0 {
        if pos + 5 > bytes.len() {
            None
        } else {
            let count = spec_u32_from_le_bytes(bytes.subrange(pos + 1, pos + 5)) as int;
            match parse_entries(bytes, pos + 5, count) {
                Some((es, p)) => Some((NodeView::Directory(es), p)),
                None => None,
            }
        }
    } else if bytes[pos] == 1 {
        if pos + 9 > bytes.len() {
            None
        } else {
            let size = spec_u64_from_le_bytes(bytes.subrange(pos + 1, pos + 9));
            match parse_id(bytes, pos + 9) {
                Some((id, p)) => Some((NodeView::File(size, id), p)),
                None => None,
            }
        }
    } else if bytes[pos] == 2 {
        match parse_id(bytes, pos + 1) {
            Some((root, p1)) => match parse_id(bytes, p1) {
                Some((index, p2)) => Some((NodeView::Vault(root, index), p2)),
                None => None,
            },
            None => None,
        }
    } else {
        None
    }
}

pub open spec fn parse_nodes(bytes: Seq<u8>, pos: int, count: int) -> Option<(Seq<NodeView>, int)>
    decreases count,
{
    if count <= 0 {
        Some((Seq::<NodeView>::empty(), pos))
    } else {
        match parse_node(bytes, pos) {
            Some((n, p1)) => match parse_nodes(bytes, p1, count - 1) {
                Some((ns, p2)) => Some((seq![n] + ns, p2)),
                None => None,
            },
            None => None,
        }
    }
}

/// Everything from `pos` to the end is a zero byte.
pub open spec fn all_zero_from(bytes: Seq<u8>, pos: int) -> bool {
    forall|i: int| pos <= i < bytes.len() ==> bytes[i] == 0
}

/// Decodes a block: the node count, the nodes, then only zero padding.
pub open spec fn spec_decode(bytes: Seq<u8>) -> Option<Seq<NodeView>> {
    if bytes.len() < 4 {
        None
    } else {
        let count = spec_u32_from_le_bytes(bytes.subrange(0, 4)) as int;
        match parse_nodes(bytes, 4, count) {
            Some((ns, p)) => if all_zero_from(bytes, p) {
                Some(ns)
            } else {
                None
            },
            None => None,
        }
    }
}

// --- the round trip: decoding an encoded block returns the nodes ---

/// When a stretch of `bytes` equals `s`, any window into that stretch
/// equals the matching window into `s`.
proof fn lemma_subrange_of_matching(bytes: Seq<u8>, pos: int, s: Seq<u8>, off: int, len: int)
    requires
        0 <= pos,
        0 <= off,
        0 <= len,
        off + len <= s.len(),
        pos + s.len() <= bytes.len(),
        bytes.subrange(pos, pos + s.len() as int) == s,
    ensures
        bytes.subrange(pos + off, pos + off + len) == s.subrange(off, off + len),
{
    assert forall|i: int| 0 <= i < len implies #[trigger] bytes.subrange(
        pos + off,
        pos + off + len,
    )[i] == s.subrange(off, off + len)[i] by {
        assert(bytes.subrange(pos, pos + s.len() as int)[off + i] == bytes[pos + off + i]);
    }
    assert(bytes.subrange(pos + off, pos + off + len) =~= s.subrange(off, off + len));
}

proof fn lemma_parse_id_at(bytes: Seq<u8>, pos: int, id: IdView)
    requires
        id_wf(id),
        0 <= pos,
        pos + spec_id_bytes(id).len() <= bytes.len(),
        bytes.subrange(pos, pos + spec_id_bytes(id).len() as int) == spec_id_bytes(id),
    ensures
        parse_id(bytes, pos) == Some((id, pos + spec_id_bytes(id).len() as int)),
{
    let b = spec_id_bytes(id);
    assert(bytes[pos] == b[0]) by {
        assert(bytes.subrange(pos, pos + b.len() as int)[0] == bytes[pos]);
    }
    match id {
        IdView::Local(k) => {
            lemma_auto_spec_u16_to_from_le_bytes();
            lemma_subrange_of_matching(bytes, pos, b, 1, 2);
            assert(b.subrange(1, 3) =~= spec_u16_to_le_bytes(k));
        },
        IdView::Block(v) => {
            lemma_subrange_of_matching(bytes, pos, b, 1, 32);
            assert(b.subrange(1, 33) =~= v);
        },
        IdView::Shard(s) => {
            lemma_auto_spec_u64_to_from_le_bytes();
            lemma_subrange_of_matching(bytes, pos, b, 1, 8);
            assert(b.subrange(1, 9) =~= spec_u64_to_le_bytes(s));
        },
    }
}

proof fn lemma_parse_entry_at(bytes: Seq<u8>, pos: int, e: EntryView)
    requires
        entry_wf(e),
        0 <= pos,
        pos + spec_entry_bytes(e).len() <= bytes.len(),
        bytes.subrange(pos, pos + spec_entry_bytes(e).len() as int) == spec_entry_bytes(e),
    ensures
        parse_entry(bytes, pos) == Some((e, pos + spec_entry_bytes(e).len() as int)),
{
    lemma_auto_spec_u32_to_from_le_bytes();
    let b = spec_entry_bytes(e);
    let n = e.name.len() as int;
    let idlen = spec_id_bytes(e.id).len() as int;
    lemma_subrange_of_matching(bytes, pos, b, 0, 4);
    assert(b.subrange(0, 4) =~= spec_u32_to_le_bytes(e.name.len() as u32));
    assert(spec_u32_from_le_bytes(bytes.subrange(pos, pos + 4)) as int == n);
    lemma_subrange_of_matching(bytes, pos, b, 4, n);
    assert(b.subrange(4, 4 + n) =~= e.name);
    lemma_subrange_of_matching(bytes, pos, b, 4 + n, idlen);
    assert(b.subrange(4 + n, 4 + n + idlen) =~= spec_id_bytes(e.id));
    lemma_parse_id_at(bytes, pos + 4 + n, e.id);
}

proof fn lemma_parse_entries_at(bytes: Seq<u8>, pos: int, es: Seq<EntryView>)
    requires
        forall|i: int| 0 <= i < es.len() ==> entry_wf(#[trigger] es[i]),
        0 <= pos,
        pos + spec_entries_bytes(es).len() <= bytes.len(),
        bytes.subrange(pos, pos + spec_entries_bytes(es).len() as int) == spec_entries_bytes(es),
    ensures
        parse_entries(bytes, pos, es.len() as int) == Some(
            (es, pos + spec_entries_bytes(es).len() as int),
        ),
    decreases es.len(),
{
    if es.len() == 0 {
        assert(parse_entries(bytes, pos, 0) == Some((Seq::<EntryView>::empty(), pos)));
        assert(es =~= Seq::<EntryView>::empty());
    } else {
        let e0 = es[0];
        let b = spec_entries_bytes(es);
        let l0 = spec_entry_bytes(e0).len() as int;
        let rest = es.skip(1);
        let lr = spec_entries_bytes(rest).len() as int;
        assert(b == spec_entry_bytes(e0) + spec_entries_bytes(rest));
        lemma_subrange_of_matching(bytes, pos, b, 0, l0);
        assert(b.subrange(0, l0) =~= spec_entry_bytes(e0));
        lemma_parse_entry_at(bytes, pos, e0);
        lemma_subrange_of_matching(bytes, pos, b, l0, lr);
        assert(b.subrange(l0, l0 + lr) =~= spec_entries_bytes(rest));
        assert(forall|i: int| 0 <= i < rest.len() ==> entry_wf(#[trigger] rest[i]));
        lemma_parse_entries_at(bytes, pos + l0, rest);
        assert(seq![e0] + rest =~= es);
    }
}

proof fn lemma_parse_node_at(bytes: Seq<u8>, pos: int, n: NodeView)
    requires
        node_wf(n),
        0 <= pos,
        pos + spec_node_bytes(n).len() <= bytes.len(),
        bytes.subrange(pos, pos + spec_node_bytes(n).len() as int) == spec_node_bytes(n),
    ensures
        parse_node(bytes, pos) == Some((n, pos + spec_node_bytes(n).len() as int)),
{
    let b = spec_node_bytes(n);
    assert(bytes[pos] == b[0]) by {
        assert(bytes.subrange(pos, pos + b.len() as int)[0] == bytes[pos]);
    }
    match n {
        NodeView::Directory(es) => {
            lemma_auto_spec_u32_to_from_le_bytes();
            let le = spec_entries_bytes(es).len() as int;
            lemma_subrange_of_matching(bytes, pos, b, 1, 4);
            assert(b.subrange(1, 5) =~= spec_u32_to_le_bytes(es.len() as u32));
            lemma_subrange_of_matching(bytes, pos, b, 5, le);
            assert(b.subrange(5, 5 + le) =~= spec_entries_bytes(es));
            lemma_parse_entries_at(bytes, pos + 5, es);
        },
        NodeView::File(size, id) => {
            lemma_auto_spec_u64_to_from_le_bytes();
            let li = spec_id_bytes(id).len() as int;
            lemma_subrange_of_matching(bytes, pos, b, 1, 8);
            assert(b.subrange(1, 9) =~= spec_u64_to_le_bytes(size));
            lemma_subrange_of_matching(bytes, pos, b, 9, li);
            assert(b.subrange(9, 9 + li) =~= spec_id_bytes(id));
            lemma_parse_id_at(bytes, pos + 9, id);
        },
        NodeView::Vault(root, index) => {
            let lr = spec_id_bytes(root).len() as int;
            let li = spec_id_bytes(index).len() as int;
            lemma_subrange_of_matching(bytes, pos, b, 1, lr);
            assert(b.subrange(1, 1 + lr) =~= spec_id_bytes(root));
            lemma_parse_id_at(bytes, pos + 1, root);
            lemma_subrange_of_matching(bytes, pos, b, 1 + lr, li);
            assert(b.subrange(1 + lr, 1 + lr + li) =~= spec_id_bytes(index));
            lemma_parse_id_at(bytes, pos + 1 + lr, index);
        },
    }
}

proof fn lemma_parse_nodes_at(bytes: Seq<u8>, pos: int, ns: Seq<NodeView>)
    requires
        forall|i: int| 0 <= i < ns.len() ==> node_wf(#[trigger] ns[i]),
        0 <= pos,
        pos + spec_nodes_bytes(ns).len() <= bytes.len(),
        bytes.subrange(pos, pos + spec_nodes_bytes(ns).len() as int) == spec_nodes_bytes(ns),
    ensures
        parse_nodes(bytes, pos, ns.len() as int) == Some(
            (ns, pos + spec_nodes_bytes(ns).len() as int),
        ),
    decreases ns.len(),
{
    if ns.len() == 0 {
        assert(ns =~= Seq::<NodeView>::empty());
    } else {
        let n0 = ns[0];
        let b = spec_nodes_bytes(ns);
        let l0 = spec_node_bytes(n0).len() as int;
        let rest = ns.skip(1);
        let lr = spec_nodes_bytes(rest).len() as int;
        assert(b == spec_node_bytes(n0) + spec_nodes_bytes(rest));
        lemma_subrange_of_matching(bytes, pos, b, 0, l0);
        assert(b.subrange(0, l0) =~= spec_node_bytes(n0));
        lemma_parse_node_at(bytes, pos, n0);
        lemma_subrange_of_matching(bytes, pos, b, l0, lr);
        assert(b.subrange(l0, l0 + lr) =~= spec_nodes_bytes(rest));
        assert(forall|i: int| 0 <= i < rest.len() ==> node_wf(#[trigger] rest[i]));
        lemma_parse_nodes_at(bytes, pos + l0, rest);
        assert(seq![n0] + rest =~= ns);
    }
}

proof fn lemma_entries_bytes_split(es: Seq<EntryView>, i: int)
    requires
        0 <= i <= es.len(),
    ensures
        spec_entries_bytes(es) == spec_entries_bytes(es.take(i)) + spec_entries_bytes(es.skip(i)),
    decreases i,
{
    if i == 0 {
        assert(es.take(0) =~= Seq::<EntryView>::empty());
        assert(es.skip(0) =~= es);
        assert(spec_entries_bytes(es) =~= Seq::<u8>::empty() + spec_entries_bytes(es));
    } else {
        let rest = es.skip(1);
        lemma_entries_bytes_split(rest, i - 1);
        assert(es.take(i)[0] == es[0]);
        assert(es.take(i).skip(1) =~= rest.take(i - 1));
        assert(es.skip(i) =~= rest.skip(i - 1));
        assert(spec_entries_bytes(es.take(i)) == spec_entry_bytes(es[0]) + spec_entries_bytes(
            rest.take(i - 1),
        ));
        assert(spec_entry_bytes(es[0]) + (spec_entries_bytes(rest.take(i - 1))
            + spec_entries_bytes(rest.skip(i - 1))) =~= (spec_entry_bytes(es[0])
            + spec_entries_bytes(rest.take(i - 1))) + spec_entries_bytes(rest.skip(i - 1)));
    }
}

/// Appending one entry appends its bytes.
proof fn lemma_entries_bytes_snoc(es: Seq<EntryView>, i: int)
    requires
        0 <= i < es.len(),
    ensures
        spec_entries_bytes(es.take(i + 1)) == spec_entries_bytes(es.take(i)) + spec_entry_bytes(
            es[i],
        ),
{
    let t = es.take(i + 1);
    lemma_entries_bytes_split(t, i);
    assert(t.take(i) =~= es.take(i));
    assert(t.skip(i) =~= seq![es[i]]);
    assert(spec_entries_bytes(seq![es[i]]) == spec_entry_bytes(es[i]) + spec_entries_bytes(
        seq![es[i]].skip(1),
    ));
    assert(seq![es[i]].skip(1) =~= Seq::<EntryView>::empty());
    assert(spec_entry_bytes(es[i]) + Seq::<u8>::empty() =~= spec_entry_bytes(es[i]));
}

/// Every entry takes at least seven bytes on the wire.
proof fn lemma_entries_bytes_len_lb(es: Seq<EntryView>)
    ensures
        spec_entries_bytes(es).len() >= 5 * es.len(),
    decreases es.len(),
{
    lemma_auto_spec_u16_to_from_le_bytes();
    lemma_auto_spec_u32_to_from_le_bytes();
    lemma_auto_spec_u64_to_from_le_bytes();
    if es.len() > 0 {
        lemma_entries_bytes_len_lb(es.skip(1));
        let e = es[0];
        match e.id {
            IdView::Local(_) => {
                assert(spec_id_bytes(e.id).len() == 3);
            },
            IdView::Block(b) => {
                assert(spec_id_bytes(e.id).len() == 1 + b.len());
            },
            IdView::Shard(_) => {
                assert(spec_id_bytes(e.id).len() == 9);
            },
        }
        assert(spec_entry_bytes(e).len() >= 5);
    }
}

proof fn lemma_nodes_bytes_split(ns: Seq<NodeView>, i: int)
    requires
        0 <= i <= ns.len(),
    ensures
        spec_nodes_bytes(ns) == spec_nodes_bytes(ns.take(i)) + spec_nodes_bytes(ns.skip(i)),
    decreases i,
{
    if i == 0 {
        assert(ns.take(0) =~= Seq::<NodeView>::empty());
        assert(ns.skip(0) =~= ns);
        assert(spec_nodes_bytes(ns) =~= Seq::<u8>::empty() + spec_nodes_bytes(ns));
    } else {
        let rest = ns.skip(1);
        lemma_nodes_bytes_split(rest, i - 1);
        assert(ns.take(i)[0] == ns[0]);
        assert(ns.take(i).skip(1) =~= rest.take(i - 1));
        assert(ns.skip(i) =~= rest.skip(i - 1));
        assert(spec_nodes_bytes(ns.take(i)) == spec_node_bytes(ns[0]) + spec_nodes_bytes(
            rest.take(i - 1),
        ));
        assert(spec_node_bytes(ns[0]) + (spec_nodes_bytes(rest.take(i - 1)) + spec_nodes_bytes(
            rest.skip(i - 1),
        )) =~= (spec_node_bytes(ns[0]) + spec_nodes_bytes(rest.take(i - 1))) + spec_nodes_bytes(
            rest.skip(i - 1),
        ));
    }
}

/// Appending one node appends its bytes.
proof fn lemma_nodes_bytes_snoc(ns: Seq<NodeView>, i: int)
    requires
        0 <= i < ns.len(),
    ensures
        spec_nodes_bytes(ns.take(i + 1)) == spec_nodes_bytes(ns.take(i)) + spec_node_bytes(ns[i]),
{
    let t = ns.take(i + 1);
    lemma_nodes_bytes_split(t, i);
    assert(t.take(i) =~= ns.take(i));
    assert(t.skip(i) =~= seq![ns[i]]);
    assert(spec_nodes_bytes(seq![ns[i]]) == spec_node_bytes(ns[i]) + spec_nodes_bytes(
        seq![ns[i]].skip(1),
    ));
    assert(seq![ns[i]].skip(1) =~= Seq::<NodeView>::empty());
    assert(spec_node_bytes(ns[i]) + Seq::<u8>::empty() =~= spec_node_bytes(ns[i]));
}

/// Every node takes at least one byte on the wire.
proof fn lemma_nodes_bytes_len_lb(ns: Seq<NodeView>)
    ensures
        spec_nodes_bytes(ns).len() >= ns.len(),
    decreases ns.len(),
{
    if ns.len() > 0 {
        lemma_nodes_bytes_len_lb(ns.skip(1));
    }
}

/// Decoding inverts encoding: an encodable node list that fits in a block
/// decodes from its own encoding.
pub proof fn lemma_decode_encode(ns: Seq<NodeView>)
    requires
        nodes_wf(ns),
        spec_content_bytes(ns).len() <= MAX_BLOCK_SIZE as int,
    ensures
        spec_decode(spec_block_bytes(ns)) == Some(ns),
{
    let c = spec_content_bytes(ns);
    lemma_padded_len(c.len() as int);
    let bytes = spec_block_bytes(ns);
    lemma_auto_spec_u32_to_from_le_bytes();
    assert(bytes.subrange(0, 4) =~= spec_u32_to_le_bytes(ns.len() as u32));
    let ln = spec_nodes_bytes(ns).len() as int;
    assert(bytes.subrange(4, 4 + ln) =~= spec_nodes_bytes(ns));
    lemma_parse_nodes_at(bytes, 4, ns);
    assert(all_zero_from(bytes, 4 + ln));
}

// --- executable encoding ---

/// Appends a byte string.
fn push_bytes(out: &mut Vec<u8>, add: &[u8])
    ensures
        final(out)@ == old(out)@ + add@,
{
    let mut i: usize = 0;
    while i < add.len()
        invariant
            0 <= i <= add@.len(),
            out@ == old(out)@ + add@.take(i as int),
        decreases add@.len() - i,
    {
        out.push(add[i]);
        proof {
            assert(add@.take(i as int).push(add@[i as int]) =~= add@.take(i + 1));
        }
        i += 1;
    }
    proof {
        assert(add@.take(add@.len() as int) =~= add@);
    }
}

/// Appends the wire form of an id.
fn push_id(out: &mut Vec<u8>, id: &UnionId)
    ensures
        final(out)@ == old(out)@ + spec_id_bytes(id@),
{
    match id {
        UnionId::Local(k) => {
            out.push(0u8);
            let b = u16_to_le_bytes(*k);
            push_bytes(out, b.as_slice());
            proof {
                assert(old(out)@.push(0u8) + spec_u16_to_le_bytes(*k) =~= old(out)@ + (seq![0u8]
                    + spec_u16_to_le_bytes(*k)));
            }
        },
        UnionId::Block(bid) => {
            out.push(1u8);
            push_bytes(out, bid.data().as_slice());
            proof {
                assert(old(out)@.push(1u8) + bid@ =~= old(out)@ + (seq![1u8] + bid@));
            }
        },
        UnionId::Shard(s) => {
            out.push(2u8);
            let b = u64_to_le_bytes(*s);
            push_bytes(out, b.as_slice());
            proof {
                assert(old(out)@.push(2u8) + spec_u64_to_le_bytes(*s) =~= old(out)@ + (seq![2u8]
                    + spec_u64_to_le_bytes(*s)));
            }
        },
    }
}

/// Appends the wire form of an entry; the caller has bounded the name.
fn push_entry(out: &mut Vec<u8>, e: &Entry)
    requires
        e.name@.len() <= u32::MAX,
    ensures
        final(out)@ == old(out)@ + spec_entry_bytes(e@),
{
    let b = u32_to_le_bytes(e.name.len() as u32);
    push_bytes(out, b.as_slice());
    push_bytes(out, e.name.as_slice());
    push_id(out, &e.id);
    proof {
        assert(((old(out)@ + spec_u32_to_le_bytes(e.name@.len() as u32)) + e.name@)
            + spec_id_bytes(e.id@) =~= old(out)@ + spec_entry_bytes(e@));
    }
}

/// Encodes a node list into a zero-padded block of a permitted size.
///
/// Succeeds exactly when the content fits the largest block size.
pub fn encode_block(nodes: &Vec<Node>) -> (r: Result<Vec<u8>, VaultError>)
    ensures
        match r {
            Ok(v) => {
                &&& spec_content_bytes(nodes_view(nodes@)).len() <= MAX_BLOCK_SIZE as int
                &&& nodes_wf(nodes_view(nodes@))
                &&& v@ == spec_block_bytes(nodes_view(nodes@))
                &&& is_valid_block_size(v@.len() as int)
            },
            Err(e) => {
                &&& e == VaultError::BlockTooLarge
                &&& spec_content_bytes(nodes_view(nodes@)).len() > MAX_BLOCK_SIZE as int
            },
        },
{
    let ghost ns = nodes_view(nodes@);
    let ghost content = spec_content_bytes(ns);
    proof {
        lemma_auto_spec_u32_to_from_le_bytes();
    }
    if nodes.len() > (MAX_BLOCK_SIZE as usize) {
        proof {
            lemma_nodes_bytes_len_lb(ns);
        }
        return Err(VaultError::BlockTooLarge);
    }
    let mut out: Vec<u8> = u32_to_le_bytes(nodes.len() as u32);
    let mut i: usize = 0;
    while i < nodes.len()
        invariant
            0 <= i <= nodes@.len(),
            ns == nodes_view(nodes@),
            content == spec_content_bytes(ns),
            ns.len() == nodes@.len(),
            ns.len() <= MAX_BLOCK_SIZE as int,
            out@ == spec_u32_to_le_bytes(ns.len() as u32) + spec_nodes_bytes(ns.take(i as int)),
            forall|k: int| 0 <= k < i ==> node_wf(#[trigger] ns[k]),
        decreases nodes@.len() - i,
    {
        let ghost out_entry = out@;
        proof {
            lemma_nodes_bytes_split(ns, i as int);
            assert(ns.skip(i as int)[0] == ns[i as int]);
            assert(spec_nodes_bytes(ns.skip(i as int)) == spec_node_bytes(ns[i as int])
                + spec_nodes_bytes(ns.skip(i as int).skip(1)));
        }
        match &nodes[i] {
            Node::Directory { entries } => {
                proof {
                    lemma_entries_bytes_len_lb(ns[i as int]->Directory_0);
                }
                if entries.len() > (MAX_BLOCK_SIZE as usize) {
                    return Err(VaultError::BlockTooLarge);
                }
                out.push(0u8);
                let b = u32_to_le_bytes(entries.len() as u32);
                push_bytes(&mut out, b.as_slice());
                let ghost es = ns[i as int]->Directory_0;
                proof {
                    assert(es == entries@.map_values(|e: Entry| e@));
                    assert(out@ =~= out_entry + seq![0u8] + spec_u32_to_le_bytes(
                        es.len() as u32,
                    ) + spec_entries_bytes(es.take(0)));
                }
                let mut j: usize = 0;
                while j < entries.len()
                    invariant
                        0 <= j <= entries@.len(),
                        es == entries@.map_values(|e: Entry| e@),
                        es.len() == entries@.len(),
                        es.len() <= MAX_BLOCK_SIZE as int,
                        ns == nodes_view(nodes@),
                        content == spec_content_bytes(ns),
                        0 <= i < ns.len(),
                        ns[i as int] == NodeView::Directory(es),
                        out@ == out_entry + seq![0u8] + spec_u32_to_le_bytes(es.len() as u32)
                            + spec_entries_bytes(es.take(j as int)),
                        out_entry == spec_u32_to_le_bytes(ns.len() as u32) + spec_nodes_bytes(
                            ns.take(i as int),
                        ),
                        forall|k: int| 0 <= k < j ==> entry_wf(#[trigger] es[k]),
                    decreases entries@.len() - j,
                {
                    proof {
                        lemma_entries_bytes_split(es, j as int);
                        assert(es.skip(j as int)[0] == es[j as int]);
                        assert(spec_entries_bytes(es.skip(j as int)) == spec_entry_bytes(
                            es[j as int],
                        ) + spec_entries_bytes(es.skip(j as int).skip(1)));
                    }
                    let e = &entries[j];
                    if e.name.len() > (MAX_BLOCK_SIZE as usize) {
                        proof {
                            lemma_nodes_bytes_split(ns, i as int);
                        }
                        return Err(VaultError::BlockTooLarge);
                    }
                    push_entry(&mut out, e);
                    proof {
                        lemma_entries_bytes_snoc(es, j as int);
                        assert(out@ =~= out_entry + seq![0u8] + spec_u32_to_le_bytes(
                            es.len() as u32,
                        ) + spec_entries_bytes(es.take(j + 1)));
                        assert(id_wf(e.id@));
                        assert(entry_wf(es[j as int]));
                    }
                    j += 1;
                }
                proof {
                    assert(es.take(es.len() as int) =~= es);
                    lemma_nodes_bytes_snoc(ns, i as int);
                    assert(out@ =~= spec_u32_to_le_bytes(ns.len() as u32) + spec_nodes_bytes(
                        ns.take(i + 1),
                    ));
                    assert(node_wf(ns[i as int]));
                }
            },
            Node::File { size, id } => {
                out.push(1u8);
                let b = u64_to_le_bytes(*size);
                push_bytes(&mut out, b.as_slice());
                push_id(&mut out, id);
                proof {
                    lemma_nodes_bytes_snoc(ns, i as int);
                    assert(out@ =~= spec_u32_to_le_bytes(ns.len() as u32) + spec_nodes_bytes(
                        ns.take(i + 1),
                    ));
                    assert(id_wf(id@));
                    assert(node_wf(ns[i as int]));
                }
            },
            Node::Vault { root, index } => {
                out.push(2u8);
                push_id(&mut out, root);
                push_id(&mut out, index);
                proof {
                    lemma_nodes_bytes_snoc(ns, i as int);
                    assert(out@ =~= spec_u32_to_le_bytes(ns.len() as u32) + spec_nodes_bytes(
                        ns.take(i + 1),
                    ));
                    assert(id_wf(root@) && id_wf(index@));
                    assert(node_wf(ns[i as int]));
                }
            },
        }
        i += 1;
    }
    proof {
        assert(ns.take(ns.len() as int) =~= ns);
        assert(out@ == content);
    }
    if out.len() > (MAX_BLOCK_SIZE as usize) {
        return Err(VaultError::BlockTooLarge);
    }
    let target = padded_len_exec(out.len());
    proof {
        lemma_padded_len(content.len() as int);
    }
    let ghost clen = content.len() as int;
    while out.len() < target
        invariant
            clen == content.len() as int,
            clen <= out@.len() <= padded_len(clen),
            target as int == padded_len(clen),
            out@ == content + Seq::new((out@.len() - clen) as nat, |x: int| 0u8),
        decreases target as int - out@.len(),
    {
        out.push(0u8);
        proof {
            assert(out@ =~= content + Seq::new((out@.len() - clen) as nat, |x: int| 0u8));
        }
    }
    proof {
        assert(out@ =~= spec_block_bytes(ns));
    }
    Ok(out)
}

/// Computes the padded length for a content length.
fn padded_len_exec(n: usize) -> (r: usize)
    requires
        n <= MAX_BLOCK_SIZE as int,
    ensures
        r as int == padded_len(n as int),
        n <= r,
        is_valid_block_size(r as int),
{
    let mut m: u8 = 0;
    let mut s: u32 = MIN_BLOCK_SIZE;
    proof {
        vstd::arithmetic::power2::lemma2_to64();
        lemma_padded_len(n as int);
    }
    while m < 15 && (s as usize) < n
        invariant
            0 <= m <= 15,
            s as int == marker_bytes(m as int),
            n <= MAX_BLOCK_SIZE as int,
            padded_len(n as int) == padded_len_from(n as int, m as int),
            padded_len(n as int) >= n as int,
        decreases 15 - m,
    {
        proof {
            if (m as int) < 15 {
                lemma_marker_bytes_increases(m as int, 15);
                vstd::arithmetic::power2::lemma2_to64();
            }
            vstd::arithmetic::power2::lemma_pow2_unfold((12 + m + 1) as nat);
        }
        s = s * 2;
        m = m + 1;
    }
    proof {
        if (s as usize) < n {
            vstd::arithmetic::power2::lemma2_to64();
            assert(marker_bytes(15) == MAX_BLOCK_SIZE as int);
            assert(false);
        }
        lemma_padded_len(n as int);
    }
    s as usize
}

// --- executable decoding ---

/// The view of an entry list.
pub open spec fn entries_view(es: Seq<Entry>) -> Seq<EntryView> {
    es.map_values(|e: Entry| e@)
}

fn read_u16(bytes: &Vec<u8>, pos: usize) -> (r: u16)
    requires
        pos + 2 <= bytes@.len(),
    ensures
        r == spec_u16_from_le_bytes(bytes@.subrange(pos as int, pos as int + 2)),
{
    let n = bytes.len();
    u16_from_le_bytes(slice_subrange(bytes.as_slice(), pos, pos + 2))
}

fn read_u32(bytes: &Vec<u8>, pos: usize) -> (r: u32)
    requires
        pos + 4 <= bytes@.len(),
    ensures
        r == spec_u32_from_le_bytes(bytes@.subrange(pos as int, pos as int + 4)),
{
    let n = bytes.len();
    u32_from_le_bytes(slice_subrange(bytes.as_slice(), pos, pos + 4))
}

fn read_u64(bytes: &Vec<u8>, pos: usize) -> (r: u64)
    requires
        pos + 8 <= bytes@.len(),
    ensures
        r == spec_u64_from_le_bytes(bytes@.subrange(pos as int, pos as int + 8)),
{
    let n = bytes.len();
    u64_from_le_bytes(slice_subrange(bytes.as_slice(), pos, pos + 8))
}

fn parse_id_exec(bytes: &Vec<u8>, pos: usize) -> (r: Option<(UnionId, usize)>)
    ensures
        match r {
            Some(v) => {
                &&& parse_id(bytes@, pos as int) == Some((v.0@, v.1 as int))
                &&& pos <= v.1 <= bytes@.len()
            },
            None => parse_id(bytes@, pos as int) is None,
        },
{
    let n = bytes.len();
    if pos >= n {
        return None;
    }
    let tag = bytes[pos];
    if tag == 0 {
        if n - pos >= 3 {
            let k = read_u16(bytes, pos + 1);
            Some((UnionId::Local(k), pos + 3))
        } else {
            None
        }
    } else if tag == 1 {
        if n - pos >= 33 {
            let mut arr: [u8; 32] = [0u8; 32];
            let mut i: usize = 0;
            while i < 32
                invariant
                    0 <= i <= 32,
                    pos + 33 <= bytes@.len(),
                    bytes@.len() <= usize::MAX,
                    forall|q: int| 0 <= q < i ==> arr@[q] == bytes@[pos + 1 + q],
                decreases 32 - i,
            {
                arr[i] = bytes[pos + 1 + i];
                i += 1;
            }
            proof {
                assert(arr@ =~= bytes@.subrange(pos as int + 1, pos as int + 33));
            }
            Some((UnionId::Block(BlockId::from_data(arr)), pos + 33))
        } else {
            None
        }
    } else if tag == 2 {
        if n - pos >= 9 {
            let s = read_u64(bytes, pos + 1);
            Some((UnionId::Shard(s), pos + 9))
        } else {
            None
        }
    } else {
        None
    }
}

fn parse_entry_exec(bytes: &Vec<u8>, pos: usize) -> (r: Option<(Entry, usize)>)
    ensures
        match r {
            Some(v) => {
                &&& parse_entry(bytes@, pos as int) == Some((v.0@, v.1 as int))
                &&& pos <= v.1 <= bytes@.len()
            },
            None => parse_entry(bytes@, pos as int) is None,
        },
{
    let len = bytes.len();
    if pos > len || len - pos < 4 {
        return None;
    }
    let nlen = read_u32(bytes, pos) as usize;
    if len - (pos + 4) < nlen {
        return None;
    }
    let name = slice_to_vec(slice_subrange(bytes.as_slice(), pos + 4, pos + 4 + nlen));
    match parse_id_exec(bytes, pos + 4 + nlen) {
        Some((id, p)) => Some((Entry { name, id }, p)),
        None => None,
    }
}

fn parse_entries_exec(bytes: &Vec<u8>, pos: usize, count: u32) -> (r: Option<(Vec<Entry>, usize)>)
    requires
        pos <= bytes@.len(),
    ensures
        match r {
            Some(v) => {
                &&& parse_entries(bytes@, pos as int, count as int) == Some(
                    (entries_view(v.0@), v.1 as int),
                )
                &&& pos <= v.1 <= bytes@.len()
            },
            None => parse_entries(bytes@, pos as int, count as int) is None,
        },
{
    let mut es: Vec<Entry> = Vec::new();
    let mut cur: usize = pos;
    let mut i: u32 = 0;
    while i < count
        invariant
            0 <= i <= count,
            pos <= cur <= bytes@.len(),
            ({
                let full = parse_entries(bytes@, pos as int, count as int);
                match parse_entries(bytes@, cur as int, (count - i) as int) {
                    Some((rs, p)) => full == Some((entries_view(es@) + rs, p)),
                    None => full is None,
                }
            }),
        decreases count - i,
    {
        match parse_entry_exec(bytes, cur) {
            Some((e, p)) => {
                proof {
                    let rest2 = parse_entries(bytes@, p as int, (count - i - 1) as int);
                    assert(parse_entries(bytes@, cur as int, (count - i) as int) == (match rest2 {
                        Some((rs2, p2)) => Some((seq![e@] + rs2, p2)),
                        None => None,
                    }));
                    if rest2 is Some {
                        let rs2 = rest2.unwrap().0;
                        assert(entries_view(es@) + (seq![e@] + rs2) =~= entries_view(es@.push(e))
                            + rs2);
                    }
                }
                es.push(e);
                cur = p;
                i += 1;
            },
            None => {
                return None;
            },
        }
    }
    proof {
        assert(parse_entries(bytes@, cur as int, 0) == Some((Seq::<EntryView>::empty(), cur as int)));
        assert(entries_view(es@) + Seq::<EntryView>::empty() =~= entries_view(es@));
    }
    Some((es, cur))
}

fn parse_node_exec(bytes: &Vec<u8>, pos: usize) -> (r: Option<(Node, usize)>)
    ensures
        match r {
            Some(v) => {
                &&& parse_node(bytes@, pos as int) == Some((v.0@, v.1 as int))
                &&& pos <= v.1 <= bytes@.len()
            },
            None => parse_node(bytes@, pos as int) is None,
        },
{
    let len = bytes.len();
    if pos >= len {
        return None;
    }
    let tag = bytes[pos];
    if tag == 0 {
        if len - pos < 5 {
            return None;
        }
        let count = read_u32(bytes, pos + 1);
        match parse_entries_exec(bytes, pos + 5, count) {
            Some((entries, p)) => Some((Node::Directory { entries }, p)),
            None => None,
        }
    } else if tag == 1 {
        if len - pos < 9 {
            return None;
        }
        let size = read_u64(bytes, pos + 1);
        match parse_id_exec(bytes, pos + 9) {
            Some((id, p)) => Some((Node::File { size, id }, p)),
            None => None,
        }
    } else if tag == 2 {
        match parse_id_exec(bytes, pos + 1) {
            Some((root, p1)) => match parse_id_exec(bytes, p1) {
                Some((index, p2)) => Some((Node::Vault { root, index }, p2)),
                None => None,
            },
            None => None,
        }
    } else {
        None
    }
}

fn parse_nodes_exec(bytes: &Vec<u8>, pos: usize, count: u32) -> (r: Option<(Vec<Node>, usize)>)
    requires
        pos <= bytes@.len(),
    ensures
        match r {
            Some(v) => {
                &&& parse_nodes(bytes@, pos as int, count as int) == Some(
                    (nodes_view(v.0@), v.1 as int),
                )
                &&& pos <= v.1 <= bytes@.len()
            },
            None => parse_nodes(bytes@, pos as int, count as int) is None,
        },
{
    let mut ns: Vec<Node> = Vec::new();
    let mut cur: usize = pos;
    let mut i: u32 = 0;
    while i < count
        invariant
            0 <= i <= count,
            pos <= cur <= bytes@.len(),
            ({
                let full = parse_nodes(bytes@, pos as int, count as int);
                match parse_nodes(bytes@, cur as int, (count - i) as int) {
                    Some((rs, p)) => full == Some((nodes_view(ns@) + rs, p)),
                    None => full is None,
                }
            }),
        decreases count - i,
    {
        match parse_node_exec(bytes, cur) {
            Some((n, p)) => {
                proof {
                    let rest2 = parse_nodes(bytes@, p as int, (count - i - 1) as int);
                    assert(parse_nodes(bytes@, cur as int, (count - i) as int) == (match rest2 {
                        Some((rs2, p2)) => Some((seq![n@] + rs2, p2)),
                        None => None,
                    }));
                    if rest2 is Some {
                        let rs2 = rest2.unwrap().0;
                        assert(nodes_view(ns@) + (seq![n@] + rs2) =~= nodes_view(ns@.push(n)) + rs2);
                    }
                }
                ns.push(n);
                cur = p;
                i += 1;
            },
            None => {
                return None;
            },
        }
    }
    proof {
        assert(parse_nodes(bytes@, cur as int, 0) == Some((Seq::<NodeView>::empty(), cur as int)));
        assert(nodes_view(ns@) + Seq::<NodeView>::empty() =~= nodes_view(ns@));
    }
    Some((ns, cur))
}

/// Decodes a block into its node list.
///
/// Succeeds exactly on byte strings of the block format: a node count,
/// that many nodes, and zero padding to the end.
pub fn decode_block(bytes: &Vec<u8>) -> (r: Result<Vec<Node>, VaultError>)
    ensures
        match r {
            Ok(ns) => spec_decode(bytes@) == Some(nodes_view(ns@)),
            Err(e) => {
                &&& spec_decode(bytes@) is None
                &&& e == VaultError::MalformedBlock
            },
        },
{
    if bytes.len() < 4 {
        return Err(VaultError::MalformedBlock);
    }
    let count = read_u32(bytes, 0);
    match parse_nodes_exec(bytes, 4, count) {
        Some((ns, p)) => {
            let mut q = p;
            while q < bytes.len()
                invariant
                    p <= q <= bytes@.len(),
                    bytes@.len() >= 4,
                    parse_nodes(bytes@, 4, spec_u32_from_le_bytes(bytes@.subrange(0, 4)) as int)
                        == Some((nodes_view(ns@), p as int)),
                    forall|x: int| p <= x < q ==> bytes@[x] == 0,
                decreases bytes@.len() - q,
            {
                if bytes[q] != 0 {
                    proof {
                        assert(bytes@[q as int] != 0);
                        assert(!all_zero_from(bytes@, p as int));
                    }
                    return Err(VaultError::MalformedBlock);
                }
                q += 1;
            }
            Ok(ns)
        },
        None => Err(VaultError::MalformedBlock),
    }
}

/// The kind of a node, as a plain value.
pub fn node_kind_of(n: &Node) -> (r: NodeKind)
    ensures
        r == spec_node_kind(n@),
{
    match n {
        Node::Directory { .. } => NodeKind::Directory,
        Node::File { .. } => NodeKind::File,
        Node::Vault { .. } => NodeKind::Vault,
    }
}

/// Byte-exact comparison of two byte strings.
pub fn bytes_equal(a: &[u8], b: &[u8]) -> (r: bool)
    ensures
        r == (a@ == b@),
{
    if a.len() != b.len() {
        return false;
    }
    let mut i: usize = 0;
    while i < a.len()
        invariant
            0 <= i <= a@.len(),
            a@.len() == b@.len(),
            forall|j: int| 0 <= j < i ==> a@[j] == b@[j],
        decreases a@.len() - i,
    {
        if a[i] != b[i] {
            return false;
        }
        i += 1;
    }
    proof {
        assert(a@ =~= b@);
    }
    true
}

} // verus!
