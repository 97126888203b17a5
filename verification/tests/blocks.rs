use base64::Engine;
use exomem::{Block, BlockId, BlockKind, BlockSize, EncryptedBlock};

#[test]
fn encrypted_block_id_binds_hash_and_header() {
    let data = vec![0u8; 4096];
    let eb = EncryptedBlock::from_vec(data.clone());
    let id = eb.id(BlockKind::Info);
    let hash = blake3::hash(&data);
    assert_eq!(&id.data()[1..], &hash.as_bytes()[1..]);
    assert_eq!(id.header(), 0b0000_0010);
    assert!(id.valid());
    assert!(id.block_has_header());
    assert_eq!(id.block_size(), BlockSize::new(4096).unwrap());

    let id2 = eb.id(BlockKind::Data);
    assert!(!id2.block_has_header());
    assert_eq!(&id2.data()[1..], &hash.as_bytes()[1..]);
}

#[test]
fn base64_names_match_the_engine() {
    let id = BlockId::from_data([7u8; 32]);
    let expected = base64::engine::general_purpose::URL_SAFE_NO_PAD.encode([7u8; 32]);
    assert_eq!(id.base64(), expected);
    assert_eq!(id.base64().len(), 43);
}

#[test]
fn encrypt_decrypt_round_trip() {
    let block = Block::from_vec(vec![1, 2, 3, 4]);
    let eb = EncryptedBlock::encrypt(&block, 0);
    assert_eq!(eb.decrypt(0).to_vec(), vec![1, 2, 3, 4]);

    // the id taken before decryption equals the one after re-encryption
    let data = vec![9u8; 4096];
    let b2 = Block::from_vec(data);
    let e2 = EncryptedBlock::encrypt(&b2, 42);
    let id_before = e2.id(BlockKind::Data);
    let e3 = EncryptedBlock::encrypt(&e2.decrypt(42), 42);
    assert_eq!(id_before, e3.id(BlockKind::Data));
}

#[test]
fn display_and_debug_texts() {
    let mut data = [0u8; 32];
    for (i, b) in data.iter_mut().enumerate() {
        *b = (i as u8).wrapping_mul(23).wrapping_add(5);
    }
    let id = BlockId::from_data(data);
    let expected = format!(
        "{:032x}{:032x}",
        u128::from_le_bytes(data[0..16].try_into().unwrap()),
        u128::from_le_bytes(data[16..32].try_into().unwrap()),
    );
    assert_eq!(id.display(), expected);
    assert_eq!(id.display().len(), 64);
    assert_eq!(id.debug(), format!("{:08b} {:08b}", data[0], data[1]));
}

#[test]
fn bytes_buffers_round_trip() {
    let b = Block::from_data(bytes::Bytes::from(vec![5u8, 6, 7]));
    assert_eq!(b.to_vec(), vec![5, 6, 7]);
    assert_eq!(b.size(), 3);
    assert_eq!(Block::empty().size(), 0);
    let e = EncryptedBlock::from_data(bytes::Bytes::from(vec![8u8]));
    assert_eq!(e.to_vec(), vec![8]);
    assert_eq!(EncryptedBlock::empty().size(), 0);
}
