use vstd::prelude::*;
use base64::Engine;

verus! {

use vstd::arithmetic::power2::{
    pow2, lemma2_to64, lemma_pow2_unfold, lemma_pow2_strictly_increases,
};
use vstd::string::StringExecFns;

broadcast use vstd::array::group_array_axioms;

/// Smallest permitted block size: 4 KiB, a common device sector size.
pub const MIN_BLOCK_SIZE: u32 = 4096;

/// Largest permitted block size: 128 MiB, size marker 15.
pub const MAX_BLOCK_SIZE: u32 = 134217728;

/// Largest addressable file size: `2^59 - 280 * 2^27` bytes, which is the
/// total the deterministic prefix plus a `u32`-indexed run of maximum-sized
/// blocks can cover.
pub const MAX_FILE_SIZE: u64 = 576460714722459648;

/// The block size, in bytes, that a 4-bit size marker denotes: `2^(12 + m)`.
pub open spec fn marker_bytes(m: int) -> int {
    pow2((12 + m) as nat) as int
}

/// A size is permitted when it is `2^(12 + m)` for a marker `m` in `[0, 16)`.
pub open spec fn is_valid_block_size(size: int) -> bool {
    exists|m: int| 0 <= m < 16 && size == #[trigger] marker_bytes(m)
}

/// The marker of a permitted size; meaningful only under `is_valid_block_size`.
pub open spec fn size_marker_of(size: int) -> int {
    choose|m: int| 0 <= m < 16 && size == #[trigger] marker_bytes(m)
}

pub proof fn lemma_marker_bytes_increases(m1: int, m2: int)
    requires
        0 <= m1 < m2,
    ensures
        marker_bytes(m1) < marker_bytes(m2),
{
    lemma_pow2_strictly_increases((12 + m1) as nat, (12 + m2) as nat);
}

/// Each permitted size has exactly one marker.
pub proof fn lemma_size_marker_of(size: int)
    requires
        is_valid_block_size(size),
    ensures
        0 <= size_marker_of(size) < 16,
        marker_bytes(size_marker_of(size)) == size,
        forall|m: int| 0 <= m < 16 && size == #[trigger] marker_bytes(m)
            ==> m == size_marker_of(size),
{
    let m0 = size_marker_of(size);
    assert(0 <= m0 < 16 && size == marker_bytes(m0));
    assert forall|m: int| 0 <= m < 16 && size == #[trigger] marker_bytes(m)
        implies m == m0 by {
        if m < m0 {
            lemma_marker_bytes_increases(m, m0);
        } else if m0 < m {
            lemma_marker_bytes_increases(m0, m);
        }
    }
}

/// Every permitted block size lies between the smallest and largest size.
pub proof fn lemma_valid_block_size_bounds(size: int)
    requires
        is_valid_block_size(size),
    ensures
        MIN_BLOCK_SIZE as int <= size <= MAX_BLOCK_SIZE as int,
{
    lemma_size_marker_of(size);
    let m = size_marker_of(size);
    lemma2_to64();
    if m > 0 {
        lemma_marker_bytes_increases(0, m);
    }
    if m < 15 {
        lemma_marker_bytes_increases(m, 15);
    }
}

/// Version bit of a header byte: bit 0 must be clear.
pub open spec fn header_supported_version(h: u8) -> bool {
    h & 0x01 == 0
}

/// A header byte is valid when bits 0, 6 and 7 are all zero.
pub open spec fn header_valid(h: u8) -> bool {
    h & 0xC1 == 0
}

/// Kind bit of a header byte: bit 1 set means the block has a header.
pub open spec fn header_has_header(h: u8) -> bool {
    h & 0x02 == 0x02
}

/// The 4-bit size marker held in bits 2-5 of a header byte.
pub open spec fn header_marker(h: u8) -> u8 {
    (h & 0x3C) >> 2
}

/// Packs a size marker and the kind bit into a header byte.
pub open spec fn pack_header(marker: u8, has_header: bool) -> u8
    recommends
        marker <= 15,
{
    (marker << 2) | (if has_header { 0x02u8 } else { 0x00u8 })
}

/// Lexicographic order on byte strings, the order `sort` on raw id bytes uses.
pub open spec fn lex_less(a: Seq<u8>, b: Seq<u8>) -> bool
    decreases a.len(),
{
    if b.len() == 0 {
        false
    } else if a.len() == 0 {
        true
    } else if a[0] != b[0] {
        a[0] < b[0]
    } else {
        lex_less(a.skip(1), b.skip(1))
    }
}

/// Packing a marker and kind bit and reading them back is the identity,
/// and the packed header is always valid.
pub proof fn lemma_header_round_trip(marker: u8, has_header: bool)
    requires
        marker <= 15,
    ensures
        header_marker(pack_header(marker, has_header)) == marker,
        header_has_header(pack_header(marker, has_header)) == has_header,
        header_valid(pack_header(marker, has_header)),
{
    if has_header {
        assert(marker <= 15 ==> (((marker << 2) | 0x02u8) & 0x3Cu8) >> 2 == marker
            && (((marker << 2) | 0x02u8) & 0x02 == 0x02)
            && (((marker << 2) | 0x02u8) & 0xC1 == 0)) by (bit_vector);
    } else {
        assert(marker <= 15 ==> (((marker << 2) | 0x00u8) & 0x3Cu8) >> 2 == marker
            && (((marker << 2) | 0x00u8) & 0x02 == 0)
            && (((marker << 2) | 0x00u8) & 0xC1 == 0)) by (bit_vector);
    }
}

/// Sorting ids by raw bytes groups them by size marker, ascending: of two
/// valid ids, the one with the smaller size marker sorts first.
pub proof fn lemma_sort_groups_by_marker(a: Seq<u8>, b: Seq<u8>)
    requires
        a.len() == 32,
        b.len() == 32,
        header_valid(a[0]),
        header_valid(b[0]),
        header_marker(a[0]) < header_marker(b[0]),
    ensures
        lex_less(a, b),
{
    let x = a[0];
    let y = b[0];
    assert(x & 0xC1 == 0 && y & 0xC1 == 0 && ((x & 0x3C) >> 2) < ((y & 0x3C) >> 2)
        ==> x < y) by (bit_vector);
}

/// A 256-bit globally unique block identifier.
///
/// Byte 0 is a header (version, kind, size marker); bytes 1..32 come from
/// a BLAKE3 hash of the encrypted block bytes.
#[derive(Clone, Copy, PartialEq, Eq, PartialOrd, Ord, Hash, Debug)]
pub struct BlockId {
    data: [u8; 32],
}

impl View for BlockId {
    type V = Seq<u8>;

    closed spec fn view(&self) -> Seq<u8> {
        self.data@
    }
}

/// An id always views as exactly 32 bytes.
pub broadcast proof fn lemma_block_id_len(id: BlockId)
    ensures
        (#[trigger] id@).len() == 32,
{
}

impl BlockId {
    /// Builds an id from a 32-byte hash and the block's size and kind; the
    /// header byte replaces the hash's first byte.
    pub fn new(hash: &[u8; 32], size: u32, has_header: bool) -> (r: BlockId)
        requires
            is_valid_block_size(size as int),
        ensures
            r@ == hash@.update(0, pack_header(size_marker_of(size as int) as u8, has_header)),
    {
        let marker = marker_of_size(size);
        let header: u8 = (marker << 2) | (if has_header { 0x02u8 } else { 0x00u8 });
        let mut data: [u8; 32] = *hash;
        data[0] = header;
        BlockId { data }
    }

    /// Wraps raw bytes as an id; validity is queried separately.
    pub fn from_data(data: [u8; 32]) -> (r: BlockId)
        ensures
            r@ == data@,
    {
        BlockId { data }
    }

    /// The raw bytes that make up this id.
    pub fn data(&self) -> (r: &[u8; 32])
        ensures
            r@ == self@,
    {
        &self.data
    }

    /// The header byte.
    pub fn header(&self) -> (r: u8)
        ensures
            r == self@[0],
    {
        self.data[0]
    }

    /// True when this implementation can handle the id: version bit clear.
    pub fn supported_version(&self) -> (r: bool)
        ensures
            r == header_supported_version(self@[0]),
    {
        (self.data[0] & 0x01) == 0
    }

    /// True when the version is supported and the reserved bits are zero.
    pub fn valid(&self) -> (r: bool)
        ensures
            r == header_valid(self@[0]),
    {
        let h = self.data[0];
        proof {
            assert(((h & 0x01) == 0 && (h & 0xC0) == 0) == (h & 0xC1 == 0)) by (bit_vector);
        }
        (h & 0x01) == 0 && (h & 0xC0) == 0
    }

    /// True when the block carries a structured header (an info block).
    pub fn block_has_header(&self) -> (r: bool)
        ensures
            r == header_has_header(self@[0]),
    {
        (self.data[0] & 0x02) == 0x02
    }

    /// The block size denoted by the header's size marker.
    pub fn block_size(&self) -> (r: BlockSize)
        ensures
            r.spec_value() as int == marker_bytes(header_marker(self@[0]) as int),
            r.wf(),
    {
        let h = self.data[0];
        let marker = (h & 0x3C) >> 2;
        proof {
            assert((h & 0x3C) >> 2 <= 15) by (bit_vector);
        }
        BlockSize::from_marker(marker)
    }

    /// Byte-wise equality of two ids.
    pub fn equals(&self, other: &BlockId) -> (r: bool)
        ensures
            r == (self@ == other@),
    {
        let mut i: usize = 0;
        while i < 32
            invariant
                0 <= i <= 32,
                forall|j: int| 0 <= j < i ==> self@[j] == other@[j],
            decreases 32 - i,
        {
            if self.data[i] != other.data[i] {
                return false;
            }
            i += 1;
        }
        proof {
            assert(self@ =~= other@);
        }
        true
    }

    /// The id as 64 hex characters: the two 128-bit halves of the raw
    /// bytes, each read little-endian and printed most significant
    /// nibble first.
    pub fn display(&self) -> (r: String)
        ensures
            r@.len() == 64,
            forall|i: int| 0 <= i < 32 ==> #[trigger] r@[2 * i] == hex_digit(
                display_byte(self@, i) / 16,
            ) && r@[2 * i + 1] == hex_digit(display_byte(self@, i) % 16),
    {
        let mut out = String::new();
        let mut i: usize = 0;
        while i < 32
            invariant
                0 <= i <= 32,
                out@.len() == 2 * i,
                forall|k: int| 0 <= k < i ==> #[trigger] out@[2 * k] == hex_digit(
                    display_byte(self@, k) / 16,
                ) && out@[2 * k + 1] == hex_digit(display_byte(self@, k) % 16),
            decreases 32 - i,
        {
            let b = if i < 16 {
                self.data[15 - i]
            } else {
                self.data[47 - i]
            };
            push_hex(&mut out, b / 16);
            push_hex(&mut out, b % 16);
            i += 1;
        }
        out
    }

    /// The header byte and the first hash byte, as two groups of eight
    /// bits separated by a space.
    pub fn debug(&self) -> (r: String)
        ensures
            r@.len() == 17,
            r@[8] == ' ',
            forall|k: int| 0 <= k < 8 ==> #[trigger] r@[k] == bit_char(self@[0], k) && r@[9 + k]
                == bit_char(self@[1], k),
    {
        let mut out = String::new();
        let mut k: usize = 0;
        while k < 8
            invariant
                0 <= k <= 8,
                out@.len() == k,
                forall|q: int| 0 <= q < k ==> #[trigger] out@[q] == bit_char(self@[0], q),
            decreases 8 - k,
        {
            let shift = (7 - k) as u8;
            push_bit(&mut out, (self.data[0] >> shift) & 1 == 1);
            k += 1;
        }
        out.append(" ");
        proof {
            reveal_strlit(" ");
        }
        let mut k2: usize = 0;
        while k2 < 8
            invariant
                0 <= k2 <= 8,
                out@.len() == 9 + k2,
                out@[8] == ' ',
                forall|q: int| 0 <= q < 8 ==> #[trigger] out@[q] == bit_char(self@[0], q),
                forall|q: int| 0 <= q < k2 ==> #[trigger] out@[9 + q] == bit_char(self@[1], q),
            decreases 8 - k2,
        {
            let shift = (7 - k2) as u8;
            push_bit(&mut out, (self.data[1] >> shift) & 1 == 1);
            k2 += 1;
        }
        out
    }

    /// Relies on base64's URL-safe alphabet without padding, the on-disk
    /// file name of a block; 32 bytes encode to 43 characters.
    #[verifier::external_body]
    pub fn base64(&self) -> (r: String)
        ensures
            r@ == base64url_of(self@),
            r@.len() == 43,
    {
        base64::engine::general_purpose::URL_SAFE_NO_PAD.encode(self.data)
    }
}

/// What base64's URL-safe no-pad engine returns for a byte string.
pub uninterp spec fn base64url_of(bytes: Seq<u8>) -> Seq<char>;

/// The lower-case hex digit of a nibble.
pub open spec fn hex_digit(n: u8) -> char {
    if n == 0 {
        '0'
    } else if n == 1 {
        '1'
    } else if n == 2 {
        '2'
    } else if n == 3 {
        '3'
    } else if n == 4 {
        '4'
    } else if n == 5 {
        '5'
    } else if n == 6 {
        '6'
    } else if n == 7 {
        '7'
    } else if n == 8 {
        '8'
    } else if n == 9 {
        '9'
    } else if n == 10 {
        'a'
    } else if n == 11 {
        'b'
    } else if n == 12 {
        'c'
    } else if n == 13 {
        'd'
    } else if n == 14 {
        'e'
    } else {
        'f'
    }
}

/// The byte shown at position `i` of an id's hex text: the id prints as
/// two little-endian 128-bit halves, so each half shows its bytes most
/// significant first.
pub open spec fn display_byte(id: Seq<u8>, i: int) -> u8 {
    if i < 16 {
        id[15 - i]
    } else {
        id[47 - i]
    }
}

/// The bit character at position `k` of a byte shown most significant
/// bit first.
pub open spec fn bit_char(b: u8, k: int) -> char {
    if (b >> ((7 - k) as u8)) & 1 == 1 {
        '1'
    } else {
        '0'
    }
}

/// Appends one lower-case hex digit.
fn push_hex(out: &mut String, n: u8)
    requires
        n < 16,
    ensures
        final(out)@ == old(out)@.push(hex_digit(n)),
{
    match n {
        0 => {
            out.append("0");
            proof {
                reveal_strlit("0");
                assert(out@ =~= old(out)@.push(hex_digit(n)));
            }
        },
        1 => {
            out.append("1");
            proof {
                reveal_strlit("1");
                assert(out@ =~= old(out)@.push(hex_digit(n)));
            }
        },
        2 => {
            out.append("2");
            proof {
                reveal_strlit("2");
                assert(out@ =~= old(out)@.push(hex_digit(n)));
            }
        },
        3 => {
            out.append("3");
            proof {
                reveal_strlit("3");
                assert(out@ =~= old(out)@.push(hex_digit(n)));
            }
        },
        4 => {
            out.append("4");
            proof {
                reveal_strlit("4");
                assert(out@ =~= old(out)@.push(hex_digit(n)));
            }
        },
        5 => {
            out.append("5");
            proof {
                reveal_strlit("5");
                assert(out@ =~= old(out)@.push(hex_digit(n)));
            }
        },
        6 => {
            out.append("6");
            proof {
                reveal_strlit("6");
                assert(out@ =~= old(out)@.push(hex_digit(n)));
            }
        },
        7 => {
            out.append("7");
            proof {
                reveal_strlit("7");
                assert(out@ =~= old(out)@.push(hex_digit(n)));
            }
        },
        8 => {
            out.append("8");
            proof {
                reveal_strlit("8");
                assert(out@ =~= old(out)@.push(hex_digit(n)));
            }
        },
        9 => {
            out.append("9");
            proof {
                reveal_strlit("9");
                assert(out@ =~= old(out)@.push(hex_digit(n)));
            }
        },
        10 => {
            out.append("a");
            proof {
                reveal_strlit("a");
                assert(out@ =~= old(out)@.push(hex_digit(n)));
            }
        },
        11 => {
            out.append("b");
            proof {
                reveal_strlit("b");
                assert(out@ =~= old(out)@.push(hex_digit(n)));
            }
        },
        12 => {
            out.append("c");
            proof {
                reveal_strlit("c");
                assert(out@ =~= old(out)@.push(hex_digit(n)));
            }
        },
        13 => {
            out.append("d");
            proof {
                reveal_strlit("d");
                assert(out@ =~= old(out)@.push(hex_digit(n)));
            }
        },
        14 => {
            out.append("e");
            proof {
                reveal_strlit("e");
                assert(out@ =~= old(out)@.push(hex_digit(n)));
            }
        },
        _ => {
            out.append("f");
            proof {
                reveal_strlit("f");
                assert(out@ =~= old(out)@.push(hex_digit(n)));
            }
        },
    }
}

/// Appends a `0` or `1`.
fn push_bit(out: &mut String, one: bool)
    ensures
        final(out)@ == old(out)@.push(if one {
            '1'
        } else {
            '0'
        }),
{
    if one {
        out.append("1");
        proof {
            reveal_strlit("1");
            assert(out@ =~= old(out)@.push('1'));
        }
    } else {
        out.append("0");
        proof {
            reveal_strlit("0");
            assert(out@ =~= old(out)@.push('0'));
        }
    }
}

/// Computes the marker of a permitted size.
fn marker_of_size(size: u32) -> (m: u8)
    requires
        is_valid_block_size(size as int),
    ensures
        m <= 15,
        marker_bytes(m as int) == size as int,
        m as int == size_marker_of(size as int),
{
    let mut m: u8 = 0;
    let mut s: u32 = MIN_BLOCK_SIZE;
    proof {
        lemma2_to64();
    }
    while m < 15 && s != size
        invariant
            0 <= m <= 15,
            s as int == marker_bytes(m as int),
            is_valid_block_size(size as int),
            forall|k: int| 0 <= k < m ==> #[trigger] marker_bytes(k) != size as int,
        decreases 15 - m,
    {
        proof {
            if (m as int) < 15 {
                lemma_marker_bytes_increases(m as int, 15);
                lemma2_to64();
            }
            lemma_pow2_unfold((12 + m + 1) as nat);
        }
        s = s * 2;
        m = m + 1;
    }
    proof {
        lemma_size_marker_of(size as int);
        if s != size {
            // m == 15 and markers 0..15 did not match, so 15 must, and then
            // s == marker_bytes(15) == size after all
            assert(size_marker_of(size as int) == 15);
            assert(false);
        }
    }
    m
}

/// The kind of a block: opaque data, or structured info with a header.
#[derive(Clone, Copy, PartialEq, Eq, Structural, Debug)]
pub enum BlockKind {
    /// The whole block is data; there is no metadata.
    Data,
    /// The block starts with a header describing its contents.
    Info,
}

impl BlockKind {
    /// True for the kind whose blocks carry a header.
    pub fn has_header(&self) -> (r: bool)
        ensures
            r == (*self is Info),
    {
        match self {
            BlockKind::Data => false,
            BlockKind::Info => true,
        }
    }
}

/// A block size: one of the sixteen permitted powers of two, 4 KiB - 128 MiB.
#[derive(Clone, Copy, PartialEq, Eq, Structural, Debug)]
pub struct BlockSize {
    size: u32,
}

impl BlockSize {
    /// The size in bytes.
    pub closed spec fn spec_value(&self) -> u32 {
        self.size
    }

    /// A well-formed size is one of the sixteen permitted powers of two.
    pub open spec fn wf(&self) -> bool {
        is_valid_block_size(self.spec_value() as int)
    }

    /// The size denoted by a 4-bit marker: `2^(12 + marker)` bytes.
    pub fn from_marker(size_marker: u8) -> (r: BlockSize)
        requires
            size_marker <= 15,
        ensures
            r.spec_value() as int == marker_bytes(size_marker as int),
            r.wf(),
    {
        let mut m: u8 = 0;
        let mut s: u32 = MIN_BLOCK_SIZE;
        proof {
            lemma2_to64();
        }
        while m < size_marker
            invariant
                0 <= m <= size_marker <= 15,
                s as int == marker_bytes(m as int),
            decreases size_marker - m,
        {
            proof {
                if (m as int) < 15 {
                    lemma_marker_bytes_increases(m as int, 15);
                    lemma2_to64();
                }
                lemma_pow2_unfold((12 + m + 1) as nat);
            }
            s = s * 2;
            m = m + 1;
        }
        BlockSize { size: s }
    }

    /// Accepts exactly the permitted sizes.
    pub fn new(size: u32) -> (r: Option<BlockSize>)
        ensures
            r is Some <==> is_valid_block_size(size as int),
            r is Some ==> r.unwrap().spec_value() == size && r.unwrap().wf(),
    {
        if BlockSize::valid(size) {
            Some(BlockSize { size })
        } else {
            None
        }
    }

    /// True exactly for sizes `2^12, 2^13, ..., 2^27`.
    pub fn valid(size: u32) -> (r: bool)
        ensures
            r == is_valid_block_size(size as int),
    {
        let mut m: u8 = 0;
        let mut s: u32 = MIN_BLOCK_SIZE;
        proof {
            lemma2_to64();
            assert(marker_bytes(0) == 4096);
        }
        let mut found: bool = size == MIN_BLOCK_SIZE;
        proof {
            if size == MIN_BLOCK_SIZE {
                assert(size as int == marker_bytes(0));
            }
        }
        while m < 15 && !found
            invariant
                0 <= m <= 15,
                s as int == marker_bytes(m as int),
                found == exists|k: int| 0 <= k <= m && size as int == #[trigger] marker_bytes(k),
            decreases 15 - m,
        {
            proof {
                if (m as int) < 15 {
                    lemma_marker_bytes_increases(m as int, 15);
                    lemma2_to64();
                }
                lemma_pow2_unfold((12 + m + 1) as nat);
            }
            s = s * 2;
            m = m + 1;
            if s == size {
                found = true;
            }
        }
        found
    }

    /// The size as an offset; the largest size has no offset form.
    pub fn as_offset(&self) -> (r: BlockOffset)
        requires
            self.spec_value() < MAX_BLOCK_SIZE,
        ensures
            r.spec_value() == self.spec_value(),
    {
        BlockOffset { value: self.size }
    }

    /// The size in bytes, as a plain integer.
    pub fn value(&self) -> (r: u32)
        ensures
            r == self.spec_value(),
    {
        self.size
    }
}

/// An offset inside a block: a `u32` below the largest block size.
#[derive(Clone, Copy, PartialEq, Eq, Structural, Debug)]
pub struct BlockOffset {
    value: u32,
}

impl BlockOffset {
    /// The offset in bytes.
    pub closed spec fn spec_value(&self) -> u32 {
        self.value
    }

    /// A well-formed offset lies below the largest block size.
    pub open spec fn wf(&self) -> bool {
        self.spec_value() < MAX_BLOCK_SIZE
    }

    /// Accepts exactly the offsets below `2^27`.
    pub fn new(value: u32) -> (r: Option<BlockOffset>)
        ensures
            r is Some <==> value < MAX_BLOCK_SIZE,
            r is Some ==> r.unwrap().spec_value() == value && r.unwrap().wf(),
    {
        if value < MAX_BLOCK_SIZE {
            Some(BlockOffset { value })
        } else {
            None
        }
    }

    /// Wraps an offset already known to be in range.
    pub fn from_valid(value: u32) -> (r: BlockOffset)
        requires
            value < MAX_BLOCK_SIZE,
        ensures
            r.spec_value() == value,
            r.wf(),
    {
        BlockOffset { value }
    }

    /// The offset in bytes, as a plain integer.
    pub fn value(&self) -> (r: u32)
        ensures
            r == self.spec_value(),
    {
        self.value
    }
}

/// A file size: a `u64` of at most `MAX_FILE_SIZE` bytes.
#[derive(Clone, Copy, PartialEq, Eq, Structural, Debug)]
pub struct FileSize {
    value: u64,
}

impl FileSize {
    /// The size in bytes.
    pub closed spec fn spec_value(&self) -> u64 {
        self.value
    }

    /// A well-formed size does not exceed the largest file size.
    pub open spec fn wf(&self) -> bool {
        self.spec_value() <= MAX_FILE_SIZE
    }

    /// Accepts exactly the sizes up to and including `MAX_FILE_SIZE`.
    pub fn new(value: u64) -> (r: Option<FileSize>)
        ensures
            r is Some <==> value <= MAX_FILE_SIZE,
            r is Some ==> r.unwrap().spec_value() == value && r.unwrap().wf(),
    {
        if value <= MAX_FILE_SIZE {
            Some(FileSize { value })
        } else {
            None
        }
    }

    /// Reinterprets the size as an offset inside a block; sound only when
    /// the value fits.
    pub fn as_block_offset(&self) -> (r: BlockOffset)
        requires
            self.spec_value() < MAX_BLOCK_SIZE,
        ensures
            r.spec_value() as u64 == self.spec_value(),
    {
        BlockOffset { value: self.value as u32 }
    }

    /// Reinterprets the size as a file offset; the maximum size itself is
    /// not a valid offset.
    pub fn as_offset(&self) -> (r: FileOffset)
        requires
            self.spec_value() < MAX_FILE_SIZE,
        ensures
            r.spec_value() == self.spec_value(),
            r.wf(),
    {
        FileOffset { value: self.value }
    }

    /// The size in bytes, as a plain integer.
    pub fn value(&self) -> (r: u64)
        ensures
            r == self.spec_value(),
    {
        self.value
    }
}

/// An offset inside a file: a `u64` strictly below `MAX_FILE_SIZE`.
#[derive(Clone, Copy, PartialEq, Eq, Structural, Debug)]
pub struct FileOffset {
    value: u64,
}

impl FileOffset {
    /// The offset in bytes.
    pub closed spec fn spec_value(&self) -> u64 {
        self.value
    }

    /// A well-formed offset lies strictly below the largest file size.
    pub open spec fn wf(&self) -> bool {
        self.spec_value() < MAX_FILE_SIZE
    }

    /// Accepts exactly the offsets strictly below `MAX_FILE_SIZE`.
    pub fn new(value: u64) -> (r: Option<FileOffset>)
        ensures
            r is Some <==> value < MAX_FILE_SIZE,
            r is Some ==> r.unwrap().spec_value() == value && r.unwrap().wf(),
    {
        if value < MAX_FILE_SIZE {
            Some(FileOffset { value })
        } else {
            None
        }
    }

    /// The offset reinterpreted as a size; every offset is a valid size.
    pub fn as_size(&self) -> (r: FileSize)
        ensures
            r.spec_value() == self.spec_value(),
            self.wf() ==> r.wf(),
    {
        FileSize { value: self.value }
    }

    /// Reinterprets the offset as an offset inside a block; sound only when
    /// the value fits.
    pub fn as_block_offset(&self) -> (r: BlockOffset)
        requires
            self.spec_value() < MAX_BLOCK_SIZE,
        ensures
            r.spec_value() as u64 == self.spec_value(),
    {
        BlockOffset { value: self.value as u32 }
    }

    /// The offset in bytes, as a plain integer.
    pub fn value(&self) -> (r: u64)
        ensures
            r == self.spec_value(),
    {
        self.value
    }
}

/// The position of a block in a file's block list.
#[derive(Clone, Copy, PartialEq, Eq, Structural, Debug)]
pub struct BlockIdIndex {
    value: u32,
}

impl BlockIdIndex {
    /// The index value.
    pub closed spec fn spec_value(&self) -> u32 {
        self.value
    }

    /// Wraps a plain index.
    pub fn new(value: u32) -> (r: BlockIdIndex)
        ensures
            r.spec_value() == value,
    {
        BlockIdIndex { value }
    }

    /// The index, as a plain integer.
    pub fn value(&self) -> (r: u32)
        ensures
            r == self.spec_value(),
    {
        self.value
    }
}

/// A globally unique 64-bit shard identifier; zero is reserved.
#[derive(Clone, Copy, PartialEq, Eq, Structural, Debug)]
pub struct ShardId {
    id: u64,
}

impl ShardId {
    /// The identifier value.
    pub closed spec fn spec_id(&self) -> u64 {
        self.id
    }

    /// Accepts every non-zero identifier.
    pub fn new(id: u64) -> (r: Option<ShardId>)
        ensures
            r is Some <==> id != 0,
            r is Some ==> r.unwrap().spec_id() == id,
    {
        if id != 0 {
            Some(ShardId { id })
        } else {
            None
        }
    }

    /// The identifier, as a plain integer.
    pub fn id(&self) -> (r: u64)
        ensures
            r == self.spec_id(),
            r != 0 <== self.spec_id() != 0,
    {
        self.id
    }
}

} // verus!
