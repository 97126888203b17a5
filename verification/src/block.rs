use vstd::prelude::*;

verus! {

use crate::ids::{
    header_has_header, header_marker, header_valid, is_valid_block_size, lemma_header_round_trip,
    lemma_size_marker_of, lemma_valid_block_size_bounds, marker_bytes, pack_header,
    size_marker_of, BlockId, BlockKind,
};

// The buffers behind blocks come from the bytes crate; the digest that
// binds an id to a block's encrypted bytes comes from blake3. Both are
// reached only through the declarations and wrappers below.

/// `bytes::Bytes`, declared so buffers can flow through verified code.
#[verifier::external_type_specification]
#[verifier::external_body]
pub struct ExBytes(bytes::Bytes);

/// The byte string a `bytes::Bytes` buffer holds.
pub uninterp spec fn bytes_content(b: bytes::Bytes) -> Seq<u8>;

/// Relies on `Bytes::new`: the empty buffer.
#[verifier::external_body]
fn bytes_new() -> (r: bytes::Bytes)
    ensures
        bytes_content(r) == Seq::<u8>::empty(),
{
    bytes::Bytes::new()
}

/// Relies on `From<Vec<u8>> for Bytes`: the buffer takes the vector's bytes.
#[verifier::external_body]
fn bytes_from_vec(v: Vec<u8>) -> (r: bytes::Bytes)
    ensures
        bytes_content(r) == v@,
{
    bytes::Bytes::from(v)
}

/// Relies on `Clone for Bytes`: a clone holds the same contents.
#[verifier::external_body]
fn bytes_clone(b: &bytes::Bytes) -> (r: bytes::Bytes)
    ensures
        bytes_content(r) == bytes_content(*b),
{
    b.clone()
}

/// Relies on `Bytes::len`: the length of the contents.
#[verifier::external_body]
fn bytes_len(b: &bytes::Bytes) -> (r: usize)
    ensures
        r == bytes_content(*b).len(),
{
    b.len()
}

/// Relies on `AsRef<[u8]> for Bytes`: a plain copy of the contents.
#[verifier::external_body]
fn bytes_to_vec(b: &bytes::Bytes) -> (r: Vec<u8>)
    ensures
        r@ == bytes_content(*b),
{
    b.as_ref().to_vec()
}

/// What blake3's hash function returns for a byte string; it depends on
/// the input bytes alone.
pub uninterp spec fn blake3_of(bytes: Seq<u8>) -> Seq<u8>;

/// Relies on `blake3::hash`: the 32-byte digest of the input.
#[verifier::external_body]
fn blake3_hash(data: &bytes::Bytes) -> (r: [u8; 32])
    ensures
        r@ == blake3_of(bytes_content(*data)),
{
    blake3::hash(data.as_ref()).into()
}

/// The id an encrypted byte string of a permitted length receives: the
/// BLAKE3 digest with its first byte replaced by the header byte.
pub open spec fn spec_id_of(data: Seq<u8>, has_header: bool) -> Seq<u8> {
    blake3_of(data).update(
        0,
        pack_header(size_marker_of(data.len() as int) as u8, has_header),
    )
}

/// Immutable unencrypted block: a plain byte buffer.
pub struct Block {
    data: bytes::Bytes,
}

impl View for Block {
    type V = Seq<u8>;

    closed spec fn view(&self) -> Seq<u8> {
        bytes_content(self.data)
    }
}

impl Clone for Block {
    /// A clone holds the same bytes.
    fn clone(&self) -> (r: Self)
        ensures
            r@ == self@,
    {
        Block { data: bytes_clone(&self.data) }
    }
}

impl Block {
    /// The empty block.
    pub fn empty() -> (r: Block)
        ensures
            r@ == Seq::<u8>::empty(),
    {
        Block { data: bytes_new() }
    }

    /// Wraps a raw buffer as a block.
    pub fn from_data(data: bytes::Bytes) -> (r: Block)
        ensures
            r@ == bytes_content(data),
    {
        Block { data }
    }

    /// Builds a block holding the vector's bytes.
    pub fn from_vec(data: Vec<u8>) -> (r: Block)
        ensures
            r@ == data@,
    {
        Block { data: bytes_from_vec(data) }
    }

    /// A shared handle on the block's buffer.
    pub fn data(&self) -> (r: bytes::Bytes)
        ensures
            bytes_content(r) == self@,
    {
        bytes_clone(&self.data)
    }

    /// A plain copy of the block's bytes.
    pub fn to_vec(&self) -> (r: Vec<u8>)
        ensures
            r@ == self@,
    {
        bytes_to_vec(&self.data)
    }

    /// The block's size in bytes.
    pub fn size(&self) -> (r: usize)
        ensures
            r == self@.len(),
    {
        bytes_len(&self.data)
    }
}

/// Immutable encrypted block: a plain byte buffer.
pub struct EncryptedBlock {
    data: bytes::Bytes,
}

impl View for EncryptedBlock {
    type V = Seq<u8>;

    closed spec fn view(&self) -> Seq<u8> {
        bytes_content(self.data)
    }
}

impl Clone for EncryptedBlock {
    /// A clone holds the same bytes.
    fn clone(&self) -> (r: Self)
        ensures
            r@ == self@,
    {
        EncryptedBlock { data: bytes_clone(&self.data) }
    }
}

impl EncryptedBlock {
    /// The empty encrypted block.
    pub fn empty() -> (r: EncryptedBlock)
        ensures
            r@ == Seq::<u8>::empty(),
    {
        EncryptedBlock { data: bytes_new() }
    }

    /// Wraps a raw buffer as an encrypted block.
    pub fn from_data(data: bytes::Bytes) -> (r: EncryptedBlock)
        ensures
            r@ == bytes_content(data),
    {
        EncryptedBlock { data }
    }

    /// Builds an encrypted block holding the vector's bytes.
    pub fn from_vec(data: Vec<u8>) -> (r: EncryptedBlock)
        ensures
            r@ == data@,
    {
        EncryptedBlock { data: bytes_from_vec(data) }
    }

    /// Encrypts a block. Encryption is the identity in this version, but
    /// this is the only producer of encrypted bytes for a plaintext.
    pub fn encrypt(block: &Block, _key: u128) -> (r: EncryptedBlock)
        ensures
            r@ == block@,
    {
        EncryptedBlock { data: block.data() }
    }

    /// Decrypts the block; the inverse of `encrypt` under the same key.
    pub fn decrypt(&self, _key: u128) -> (r: Block)
        ensures
            r@ == self@,
    {
        Block { data: bytes_clone(&self.data) }
    }

    /// A shared handle on the encrypted buffer.
    pub fn data(&self) -> (r: bytes::Bytes)
        ensures
            bytes_content(r) == self@,
    {
        bytes_clone(&self.data)
    }

    /// A plain copy of the encrypted bytes.
    pub fn to_vec(&self) -> (r: Vec<u8>)
        ensures
            r@ == self@,
    {
        bytes_to_vec(&self.data)
    }

    /// The encrypted block's size in bytes.
    pub fn size(&self) -> (r: usize)
        ensures
            r == self@.len(),
    {
        bytes_len(&self.data)
    }

    /// The id of this encrypted block: the BLAKE3 digest of its bytes,
    /// with the header byte derived from its length and kind. The header
    /// byte is valid and gives the length and kind back.
    pub fn id(&self, kind: BlockKind) -> (r: BlockId)
        requires
            is_valid_block_size(self@.len() as int),
        ensures
            r@ == spec_id_of(self@, kind is Info),
            blake3_of(self@).len() == 32,
            r@.len() == 32,
            r@[0] == pack_header(size_marker_of(self@.len() as int) as u8, kind is Info),
            header_valid(r@[0]),
            header_has_header(r@[0]) == (kind is Info),
            marker_bytes(header_marker(r@[0]) as int) == self@.len(),
    {
        let hash = blake3_hash(&self.data);
        let len = bytes_len(&self.data);
        proof {
            lemma_valid_block_size_bounds(self@.len() as int);
            lemma_size_marker_of(self@.len() as int);
            lemma_header_round_trip(
                size_marker_of(self@.len() as int) as u8,
                kind is Info,
            );
        }
        BlockId::new(&hash, len as u32, kind.has_header())
    }
}

} // verus!
